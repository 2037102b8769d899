//! Rule configuration: the rule table, rule sets, and the resolution of a
//! configuration from command-line flags or a configuration table.
//!
//! The enabled set is `((default ∪ experimental) ∪ enable) − disable`, where
//! the experimental rules join only when `enable_experimental` is true.

use vstd::prelude::*;

use crate::text::{
    byte_offset, char_len, lemma_byte_offset_rises, lemma_byte_offset_step, lemma_byte_offset_zero,
    occurrences, occurrences_of, slice_chars,
};
use crate::text::{
    all_cjk, chars_of, cjk, same_chars, spells, split, split_chars, trim, trimmed, vec_to_string,
};



verus! {

/// How many rules there are.
pub open spec fn rule_count() -> nat {
    21
}

/// A rule identity from the rule specification, in specification order.
#[derive(Debug, Clone, Copy, PartialEq, Eq, PartialOrd, Ord, Hash, Structural)]
pub enum RuleId {
    ZhTypography1,
    ZhTypography2,
    ZhTypography3,
    ZhTypography4,
    ZhTypography5,
    ZhTypography6,
    ZhTypography7,
    ZhTypography8,
    ZhTypography9,
    ZhTypography10,
    ZhTypography11,
    ZhTell1,
    ZhTell2,
    ZhTell3,
    ZhTell4,
    EnTell1,
    EnTell2,
    EnTell3,
    ZhTell5,
    ZhWord1,
    ZhWord2,
}

/// The external id of the rule at one position of the table.
pub open spec fn rule_name(index: nat) -> Seq<char> {
    if index == 0 {
        "zh-typography-1"@
    } else if index == 1 {
        "zh-typography-2"@
    } else if index == 2 {
        "zh-typography-3"@
    } else if index == 3 {
        "zh-typography-4"@
    } else if index == 4 {
        "zh-typography-5"@
    } else if index == 5 {
        "zh-typography-6"@
    } else if index == 6 {
        "zh-typography-7"@
    } else if index == 7 {
        "zh-typography-8"@
    } else if index == 8 {
        "zh-typography-9"@
    } else if index == 9 {
        "zh-typography-10"@
    } else if index == 10 {
        "zh-typography-11"@
    } else if index == 11 {
        "zh-tell-1"@
    } else if index == 12 {
        "zh-tell-2"@
    } else if index == 13 {
        "zh-tell-3"@
    } else if index == 14 {
        "zh-tell-4"@
    } else if index == 15 {
        "en-tell-1"@
    } else if index == 16 {
        "en-tell-2"@
    } else if index == 17 {
        "en-tell-3"@
    } else if index == 18 {
        "zh-tell-5"@
    } else if index == 19 {
        "zh-word-1"@
    } else if index == 20 {
        "zh-word-2"@
    } else {
        Seq::empty()
    }
}

/// The rule at one position of the table.
pub open spec fn rule_at(index: nat) -> RuleId {
    if index == 0 {
        RuleId::ZhTypography1
    } else if index == 1 {
        RuleId::ZhTypography2
    } else if index == 2 {
        RuleId::ZhTypography3
    } else if index == 3 {
        RuleId::ZhTypography4
    } else if index == 4 {
        RuleId::ZhTypography5
    } else if index == 5 {
        RuleId::ZhTypography6
    } else if index == 6 {
        RuleId::ZhTypography7
    } else if index == 7 {
        RuleId::ZhTypography8
    } else if index == 8 {
        RuleId::ZhTypography9
    } else if index == 9 {
        RuleId::ZhTypography10
    } else if index == 10 {
        RuleId::ZhTypography11
    } else if index == 11 {
        RuleId::ZhTell1
    } else if index == 12 {
        RuleId::ZhTell2
    } else if index == 13 {
        RuleId::ZhTell3
    } else if index == 14 {
        RuleId::ZhTell4
    } else if index == 15 {
        RuleId::EnTell1
    } else if index == 16 {
        RuleId::EnTell2
    } else if index == 17 {
        RuleId::EnTell3
    } else if index == 18 {
        RuleId::ZhTell5
    } else if index == 19 {
        RuleId::ZhWord1
    } else {
        RuleId::ZhWord2
    }
}

impl RuleId {
    pub const ZH_TYPOGRAPHY_1: Self = Self::ZhTypography1;
    pub const ZH_TYPOGRAPHY_2: Self = Self::ZhTypography2;
    pub const ZH_TYPOGRAPHY_3: Self = Self::ZhTypography3;
    pub const ZH_TYPOGRAPHY_4: Self = Self::ZhTypography4;
    pub const ZH_TYPOGRAPHY_5: Self = Self::ZhTypography5;
    pub const ZH_TYPOGRAPHY_6: Self = Self::ZhTypography6;
    pub const ZH_TYPOGRAPHY_7: Self = Self::ZhTypography7;
    pub const ZH_TYPOGRAPHY_8: Self = Self::ZhTypography8;
    pub const ZH_TYPOGRAPHY_9: Self = Self::ZhTypography9;
    pub const ZH_TYPOGRAPHY_10: Self = Self::ZhTypography10;
    pub const ZH_TYPOGRAPHY_11: Self = Self::ZhTypography11;
    pub const ZH_TELL_1: Self = Self::ZhTell1;
    pub const ZH_TELL_2: Self = Self::ZhTell2;
    pub const ZH_TELL_3: Self = Self::ZhTell3;
    pub const ZH_TELL_4: Self = Self::ZhTell4;
    pub const EN_TELL_1: Self = Self::EnTell1;
    pub const EN_TELL_2: Self = Self::EnTell2;
    pub const EN_TELL_3: Self = Self::EnTell3;
    pub const ZH_TELL_5: Self = Self::ZhTell5;
    pub const ZH_WORD_1: Self = Self::ZhWord1;
    pub const ZH_WORD_2: Self = Self::ZhWord2;

    /// This rule's position in the table.
    pub open spec fn index(self) -> nat {
        match self {
            RuleId::ZhTypography1 => 0,
            RuleId::ZhTypography2 => 1,
            RuleId::ZhTypography3 => 2,
            RuleId::ZhTypography4 => 3,
            RuleId::ZhTypography5 => 4,
            RuleId::ZhTypography6 => 5,
            RuleId::ZhTypography7 => 6,
            RuleId::ZhTypography8 => 7,
            RuleId::ZhTypography9 => 8,
            RuleId::ZhTypography10 => 9,
            RuleId::ZhTypography11 => 10,
            RuleId::ZhTell1 => 11,
            RuleId::ZhTell2 => 12,
            RuleId::ZhTell3 => 13,
            RuleId::ZhTell4 => 14,
            RuleId::EnTell1 => 15,
            RuleId::EnTell2 => 16,
            RuleId::EnTell3 => 17,
            RuleId::ZhTell5 => 18,
            RuleId::ZhWord1 => 19,
            RuleId::ZhWord2 => 20,
        }
    }

    /// This rule's position in the table.
    pub fn position(self) -> (r: usize)
        ensures
            r == self.index(),
            r < rule_count(),
    {
        match self {
            RuleId::ZhTypography1 => 0,
            RuleId::ZhTypography2 => 1,
            RuleId::ZhTypography3 => 2,
            RuleId::ZhTypography4 => 3,
            RuleId::ZhTypography5 => 4,
            RuleId::ZhTypography6 => 5,
            RuleId::ZhTypography7 => 6,
            RuleId::ZhTypography8 => 7,
            RuleId::ZhTypography9 => 8,
            RuleId::ZhTypography10 => 9,
            RuleId::ZhTypography11 => 10,
            RuleId::ZhTell1 => 11,
            RuleId::ZhTell2 => 12,
            RuleId::ZhTell3 => 13,
            RuleId::ZhTell4 => 14,
            RuleId::EnTell1 => 15,
            RuleId::EnTell2 => 16,
            RuleId::EnTell3 => 17,
            RuleId::ZhTell5 => 18,
            RuleId::ZhWord1 => 19,
            RuleId::ZhWord2 => 20,
        }
    }

    /// The rule at one position of the table.
    pub fn at(index: usize) -> (r: RuleId)
        requires
            index < rule_count(),
        ensures
            r == rule_at(index as nat),
            r.index() == index,
    {
        if index == 0 {
            RuleId::ZhTypography1
        } else if index == 1 {
            RuleId::ZhTypography2
        } else if index == 2 {
            RuleId::ZhTypography3
        } else if index == 3 {
            RuleId::ZhTypography4
        } else if index == 4 {
            RuleId::ZhTypography5
        } else if index == 5 {
            RuleId::ZhTypography6
        } else if index == 6 {
            RuleId::ZhTypography7
        } else if index == 7 {
            RuleId::ZhTypography8
        } else if index == 8 {
            RuleId::ZhTypography9
        } else if index == 9 {
            RuleId::ZhTypography10
        } else if index == 10 {
            RuleId::ZhTypography11
        } else if index == 11 {
            RuleId::ZhTell1
        } else if index == 12 {
            RuleId::ZhTell2
        } else if index == 13 {
            RuleId::ZhTell3
        } else if index == 14 {
            RuleId::ZhTell4
        } else if index == 15 {
            RuleId::EnTell1
        } else if index == 16 {
            RuleId::EnTell2
        } else if index == 17 {
            RuleId::EnTell3
        } else if index == 18 {
            RuleId::ZhTell5
        } else if index == 19 {
            RuleId::ZhWord1
        } else {
            RuleId::ZhWord2
        }
    }

    /// Return the stable external rule id.
    #[must_use]
    pub fn as_str(self) -> (r: &'static str)
        ensures
            r@ == rule_name(self.index()),
    {
        match self {
            RuleId::ZhTypography1 => "zh-typography-1",
            RuleId::ZhTypography2 => "zh-typography-2",
            RuleId::ZhTypography3 => "zh-typography-3",
            RuleId::ZhTypography4 => "zh-typography-4",
            RuleId::ZhTypography5 => "zh-typography-5",
            RuleId::ZhTypography6 => "zh-typography-6",
            RuleId::ZhTypography7 => "zh-typography-7",
            RuleId::ZhTypography8 => "zh-typography-8",
            RuleId::ZhTypography9 => "zh-typography-9",
            RuleId::ZhTypography10 => "zh-typography-10",
            RuleId::ZhTypography11 => "zh-typography-11",
            RuleId::ZhTell1 => "zh-tell-1",
            RuleId::ZhTell2 => "zh-tell-2",
            RuleId::ZhTell3 => "zh-tell-3",
            RuleId::ZhTell4 => "zh-tell-4",
            RuleId::EnTell1 => "en-tell-1",
            RuleId::EnTell2 => "en-tell-2",
            RuleId::EnTell3 => "en-tell-3",
            RuleId::ZhTell5 => "zh-tell-5",
            RuleId::ZhWord1 => "zh-word-1",
            RuleId::ZhWord2 => "zh-word-2",
        }
    }
}


/// A finding's configured severity.
#[derive(Debug, Clone, Copy, PartialEq, Eq, Structural)]
pub enum Severity {
    Error,
    Warning,
}

/// Whether a rule is available by default or only through the maturity switch.
#[derive(Debug, Clone, Copy, PartialEq, Eq, Structural)]
pub enum Maturity {
    Stable,
    Experimental,
}

/// Whether the rule at one position is on without any configuration.
pub open spec fn rule_default_enabled(index: nat) -> bool {
    index < 11 && index != 8
}

/// The maturity of the rule at one position.
pub open spec fn rule_maturity(index: nat) -> Maturity {
    if index < 11 {
        Maturity::Stable
    } else {
        Maturity::Experimental
    }
}

/// The severity the rule at one position has unless configured otherwise.
pub open spec fn rule_default_severity(index: nat) -> Severity {
    if index < 11 {
        Severity::Error
    } else {
        Severity::Warning
    }
}

/// Configuration-relevant properties of one known rule.
#[derive(Debug, Clone, Copy, PartialEq, Eq)]
pub struct RuleMetadata {
    pub name: &'static str,
    pub default_enabled: bool,
    pub default_severity: Severity,
    pub maturity: Maturity,
}

/// The metadata of a stable rule.
pub fn stable(name: &'static str, default_enabled: bool) -> (r: RuleMetadata)
    ensures
        r.name == name,
        r.default_enabled == default_enabled,
        r.default_severity == Severity::Error,
        r.maturity == Maturity::Stable,
{
    RuleMetadata { name, default_enabled, default_severity: Severity::Error, maturity: Maturity::Stable }
}

/// The metadata of an experimental rule: off and a warning by default.
pub fn experimental(name: &'static str) -> (r: RuleMetadata)
    ensures
        r.name == name,
        !r.default_enabled,
        r.default_severity == Severity::Warning,
        r.maturity == Maturity::Experimental,
{
    RuleMetadata {
        name,
        default_enabled: false,
        default_severity: Severity::Warning,
        maturity: Maturity::Experimental,
    }
}

/// The first rule at or after `from` whose id is `name`.
pub open spec fn find_rule_from(name: Seq<char>, from: nat) -> Option<RuleId>
    decreases rule_count() - from,
{
    if from >= rule_count() {
        None
    } else if rule_name(from) == name {
        Some(rule_at(from))
    } else {
        find_rule_from(name, from + 1)
    }
}

/// The rule whose external id is `name`, if any.
pub open spec fn rule_named(name: Seq<char>) -> Option<RuleId> {
    find_rule_from(name, 0)
}

pub proof fn lemma_rule_at_index(index: nat)
    requires
        index < rule_count(),
    ensures
        rule_at(index).index() == index,
{
}

pub proof fn lemma_find_rule_from(name: Seq<char>, from: nat)
    ensures
        find_rule_from(name, from) matches Some(rule) ==> rule_name(rule.index()) == name
            && from <= rule.index() < rule_count(),
    decreases rule_count() - from,
{
    if from < rule_count() {
        lemma_rule_at_index(from);
        if rule_name(from) != name {
            lemma_find_rule_from(name, from + 1);
        }
    }
}

impl RuleId {
    /// Return this rule's configuration metadata.
    #[must_use]
    pub fn metadata(self) -> (r: RuleMetadata)
        ensures
            r.name@ == rule_name(self.index()),
            r.default_enabled == rule_default_enabled(self.index()),
            r.default_severity == rule_default_severity(self.index()),
            r.maturity == rule_maturity(self.index()),
    {
        let position = self.position();
        if position < 11 {
            stable(self.as_str(), position != 8)
        } else {
            experimental(self.as_str())
        }
    }

    /// Every rule, in specification order.
    pub fn all() -> (r: Vec<RuleId>)
        ensures
            r@.len() == rule_count(),
            forall|i: int| 0 <= i < rule_count() ==> (#[trigger] r@[i]).index() == i,
    {
        let mut r: Vec<RuleId> = Vec::new();
        let mut i: usize = 0;
        while i < 21
            invariant
                i <= 21,
                r@.len() == i,
                forall|k: int| 0 <= k < i ==> (#[trigger] r@[k]).index() == k,
            decreases 21 - i,
        {
            r.push(RuleId::at(i));
            i = i + 1;
        }
        r
    }

    /// The rule whose external id is `name`.
    pub fn from_name(name: &str) -> (r: Option<RuleId>)
        ensures
            r == rule_named(name@),
    {
        let wanted = chars_of(name);
        let mut i: usize = 0;
        while i < 21
            invariant
                i <= 21,
                wanted@ == name@,
                rule_named(name@) == find_rule_from(name@, i as nat),
            decreases 21 - i,
        {
            let candidate = RuleId::at(i);
            let spelled = chars_of(candidate.as_str());
            if same_chars(&wanted, &spelled) {
                return Some(candidate);
            }
            i = i + 1;
        }
        None
    }
}

/// No two rules share an external id.
pub proof fn law_rule_names_are_distinct(a: RuleId, b: RuleId)
    ensures
        (rule_name(a.index()) == rule_name(b.index())) == (a == b),
{
    reveal_strlit("zh-typography-1");
    reveal_strlit("zh-typography-2");
    reveal_strlit("zh-typography-3");
    reveal_strlit("zh-typography-4");
    reveal_strlit("zh-typography-5");
    reveal_strlit("zh-typography-6");
    reveal_strlit("zh-typography-7");
    reveal_strlit("zh-typography-8");
    reveal_strlit("zh-typography-9");
    reveal_strlit("zh-typography-10");
    reveal_strlit("zh-typography-11");
    reveal_strlit("zh-tell-1");
    reveal_strlit("zh-tell-2");
    reveal_strlit("zh-tell-3");
    reveal_strlit("zh-tell-4");
    reveal_strlit("en-tell-1");
    reveal_strlit("en-tell-2");
    reveal_strlit("en-tell-3");
    reveal_strlit("zh-tell-5");
    reveal_strlit("zh-word-1");
    reveal_strlit("zh-word-2");
    let x = rule_name(a.index());
    let y = rule_name(b.index());
    if x == y {
        assert(x.len() == y.len() && x[0] == y[0] && x[3] == y[3] && x[x.len() - 1] == y[y.len()
            - 1]);
        assert(a.index() == b.index());
    }
}

proof fn lemma_find_rule_named(rule: RuleId, from: nat)
    requires
        from <= rule.index(),
    ensures
        find_rule_from(rule_name(rule.index()), from) == Some(rule),
    decreases rule.index() - from,
{
    if from < rule.index() {
        law_rule_names_are_distinct(rule_at(from), rule);
        lemma_rule_at_index(from);
        lemma_find_rule_named(rule, from + 1);
    }
}

/// Looking a rule up by its external id gives the rule back.
pub proof fn law_name_round_trip(rule: RuleId)
    ensures
        rule_named(rule_name(rule.index())) == Some(rule),
{
    lemma_find_rule_named(rule, 0);
}

/// The stable rules are exactly those whose id starts with `zh-typography-`;
/// they are errors by default and on by default but for `zh-typography-9`.
/// The others are warnings and off by default.
pub proof fn law_maturity_follows_the_id(rule: RuleId)
    ensures
        (rule_maturity(rule.index()) == Maturity::Stable) == "zh-typography-"@.is_prefix_of(
            rule_name(rule.index()),
        ),
        rule_maturity(rule.index()) == Maturity::Stable ==> rule_default_severity(rule.index())
            == Severity::Error && rule_default_enabled(rule.index()) == (rule != RuleId::ZhTypography9),
        rule_maturity(rule.index()) == Maturity::Experimental ==> !rule_default_enabled(rule.index())
            && rule_default_severity(rule.index()) == Severity::Warning,
{
    reveal_strlit("zh-typography-");
    reveal_strlit("zh-typography-1");
    reveal_strlit("zh-typography-2");
    reveal_strlit("zh-typography-3");
    reveal_strlit("zh-typography-4");
    reveal_strlit("zh-typography-5");
    reveal_strlit("zh-typography-6");
    reveal_strlit("zh-typography-7");
    reveal_strlit("zh-typography-8");
    reveal_strlit("zh-typography-9");
    reveal_strlit("zh-typography-10");
    reveal_strlit("zh-typography-11");
    reveal_strlit("zh-tell-1");
    reveal_strlit("zh-tell-2");
    reveal_strlit("zh-tell-3");
    reveal_strlit("zh-tell-4");
    reveal_strlit("en-tell-1");
    reveal_strlit("en-tell-2");
    reveal_strlit("en-tell-3");
    reveal_strlit("zh-tell-5");
    reveal_strlit("zh-word-1");
    reveal_strlit("zh-word-2");
    let name = rule_name(rule.index());
    if rule.index() < 11 {
        assert(name.subrange(0, 14) =~= "zh-typography-"@);
    } else {
        assert(name.len() < 14);
    }
}

/// A set of rules, one membership flag per rule in specification order.
pub struct RuleMask {
    members: Vec<bool>,
}

impl View for RuleMask {
    type V = Seq<bool>;

    open spec fn view(&self) -> Seq<bool> {
        Seq::new(rule_count(), |i: int| self.member(i))
    }
}

/// The set with no rule in it.
pub open spec fn no_rules() -> Seq<bool> {
    Seq::new(rule_count(), |i: int| false)
}

/// The set with every rule in it.
pub open spec fn every_rule() -> Seq<bool> {
    Seq::new(rule_count(), |i: int| true)
}

/// How many rules a set holds.
pub open spec fn members_in(s: Seq<bool>) -> nat
    decreases s.len(),
{
    if s.len() == 0 {
        0
    } else {
        members_in(s.drop_last()) + if s.last() { 1nat } else { 0nat }
    }
}

impl RuleMask {
    #[verifier::type_invariant]
    spec fn one_flag_per_rule(self) -> bool {
        self.members@.len() == rule_count()
    }

    /// Whether the rule at one position is in the set.
    pub closed spec fn member(&self, index: int) -> bool {
        self.members@[index]
    }

    /// The set of no rules.
    pub fn new() -> (r: RuleMask)
        ensures
            r@ == no_rules(),
    {
        let mut members: Vec<bool> = Vec::new();
        let mut i: usize = 0;
        while i < 21
            invariant
                i <= 21,
                members@.len() == i,
                forall|k: int| 0 <= k < i ==> !(#[trigger] members@[k]),
            decreases 21 - i,
        {
            members.push(false);
            i = i + 1;
        }
        let r = RuleMask { members };
        assert(r@ =~= no_rules());
        r
    }

    /// The set of every rule.
    pub fn everything() -> (r: RuleMask)
        ensures
            r@ == every_rule(),
    {
        let mut members: Vec<bool> = Vec::new();
        let mut i: usize = 0;
        while i < 21
            invariant
                i <= 21,
                members@.len() == i,
                forall|k: int| 0 <= k < i ==> #[trigger] members@[k],
            decreases 21 - i,
        {
            members.push(true);
            i = i + 1;
        }
        let r = RuleMask { members };
        assert(r@ =~= every_rule());
        r
    }

    /// A copy of this set.
    pub fn copy(&self) -> (r: RuleMask)
        ensures
            r@ == self@,
    {
        proof { use_type_invariant(self); }
        let mut members: Vec<bool> = Vec::new();
        let mut i: usize = 0;
        while i < 21
            invariant
                i <= 21,
                self.members@.len() == 21,
                members@.len() == i,
                forall|k: int| 0 <= k < i ==> #[trigger] members@[k] == self.members@[k],
            decreases 21 - i,
        {
            members.push(self.members[i]);
            i = i + 1;
        }
        let r = RuleMask { members };
        assert(r@ =~= self@);
        r
    }

    /// Whether a rule is in the set.
    pub fn contains(&self, rule: RuleId) -> (r: bool)
        ensures
            r == self@[rule.index() as int],
    {
        proof { use_type_invariant(self); }
        self.members[rule.position()]
    }

    /// This set with the membership of the rule at one position replaced.
    fn with(&self, position: usize, member: bool) -> (r: RuleMask)
        requires
            position < rule_count(),
        ensures
            r@ == self@.update(position as int, member),
    {
        proof { use_type_invariant(self); }
        let mut members: Vec<bool> = Vec::new();
        let mut i: usize = 0;
        while i < 21
            invariant
                i <= 21,
                position < 21,
                self.members@.len() == 21,
                members@.len() == i,
                forall|k: int|
                    0 <= k < i ==> #[trigger] members@[k] == (if k == position {
                        member
                    } else {
                        self.members@[k]
                    }),
            decreases 21 - i,
        {
            if i == position {
                members.push(member);
            } else {
                members.push(self.members[i]);
            }
            i = i + 1;
        }
        let r = RuleMask { members };
        assert(r@ =~= self@.update(position as int, member));
        r
    }

    /// Put a rule in the set.
    pub fn insert(&mut self, rule: RuleId)
        ensures
            final(self)@ == old(self)@.update(rule.index() as int, true),
    {
        let next = self.with(rule.position(), true);
        *self = next;
    }

    /// Take a rule out of the set.
    pub fn remove(&mut self, rule: RuleId)
        ensures
            final(self)@ == old(self)@.update(rule.index() as int, false),
    {
        let next = self.with(rule.position(), false);
        *self = next;
    }

    /// The rules in this set or in `other`.
    pub fn union(&self, other: &RuleMask) -> (r: RuleMask)
        ensures
            r@ == Seq::new(rule_count(), |i: int| self@[i] || other@[i]),
    {
        let mut r = self.copy();
        let all = RuleId::all();
        let mut i: usize = 0;
        while i < 21
            invariant
                i <= 21,
                all@.len() == 21,
                forall|k: int| 0 <= k < 21 ==> (#[trigger] all@[k]).index() == k,
                forall|k: int| 0 <= k < i ==> #[trigger] r@[k] == (self@[k] || other@[k]),
                forall|k: int| i <= k < 21 ==> #[trigger] r@[k] == self@[k],
            decreases 21 - i,
        {
            if other.contains(all[i]) {
                r.insert(all[i]);
            }
            i = i + 1;
        }
        assert(r@ =~= Seq::new(rule_count(), |i: int| self@[i] || other@[i]));
        r
    }

    /// The rules in this set and not in `other`.
    pub fn minus(&self, other: &RuleMask) -> (r: RuleMask)
        ensures
            r@ == Seq::new(rule_count(), |i: int| self@[i] && !other@[i]),
    {
        let mut r = self.copy();
        let all = RuleId::all();
        let mut i: usize = 0;
        while i < 21
            invariant
                i <= 21,
                all@.len() == 21,
                forall|k: int| 0 <= k < 21 ==> (#[trigger] all@[k]).index() == k,
                forall|k: int| 0 <= k < i ==> #[trigger] r@[k] == (self@[k] && !other@[k]),
                forall|k: int| i <= k < 21 ==> #[trigger] r@[k] == self@[k],
            decreases 21 - i,
        {
            if other.contains(all[i]) {
                r.remove(all[i]);
            }
            i = i + 1;
        }
        assert(r@ =~= Seq::new(rule_count(), |i: int| self@[i] && !other@[i]));
        r
    }

    /// How many rules the set holds.
    pub fn len(&self) -> (r: usize)
        ensures
            r == members_in(self@),
    {
        proof { use_type_invariant(self); }
        let mut count: usize = 0;
        let mut i: usize = 0;
        while i < 21
            invariant
                i <= 21,
                self.members@.len() == 21,
                count <= i,
                count == members_in(self@.take(i as int)),
            decreases 21 - i,
        {
            proof {
                assert(self@.take(i + 1).drop_last() =~= self@.take(i as int));
            }
            if self.members[i] {
                count = count + 1;
            }
            i = i + 1;
        }
        assert(self@.take(21) =~= self@);
        count
    }

    /// Whether the set holds no rule.
    pub fn is_empty(&self) -> (r: bool)
        ensures
            r == (self@ == no_rules()),
    {
        proof { use_type_invariant(self); }
        let mut i: usize = 0;
        while i < 21
            invariant
                i <= 21,
                self.members@.len() == 21,
                forall|k: int| 0 <= k < i ==> !self@[k],
            decreases 21 - i,
        {
            if self.members[i] {
                assert(self@[i as int] != no_rules()[i as int]);
                return false;
            }
            i = i + 1;
        }
        assert(self@ =~= no_rules());
        true
    }

    /// The rules in the set, in specification order.
    pub fn rules(&self) -> (r: Vec<RuleId>)
        ensures
            forall|i: int| 0 <= i < r@.len() ==> self@[(#[trigger] r@[i]).index() as int],
            forall|k: int| 0 <= k < rule_count() && #[trigger] self@[k] ==> exists|i: int|
                0 <= i < r@.len() && r@[i].index() == k,
            forall|i: int, j: int| 0 <= i < j < r@.len() ==> r@[i].index() < r@[j].index(),
    {
        proof { use_type_invariant(self); }
        let mut r: Vec<RuleId> = Vec::new();
        let mut i: usize = 0;
        while i < 21
            invariant
                i <= 21,
                self.members@.len() == 21,
                forall|x: int| 0 <= x < r@.len() ==> self@[(#[trigger] r@[x]).index() as int],
                forall|x: int| 0 <= x < r@.len() ==> (#[trigger] r@[x]).index() < i,
                forall|k: int| 0 <= k < i && #[trigger] self@[k] ==> exists|x: int|
                    0 <= x < r@.len() && r@[x].index() == k,
                forall|x: int, y: int| 0 <= x < y < r@.len() ==> r@[x].index() < r@[y].index(),
            decreases 21 - i,
        {
            let ghost before = r@;
            if self.members[i] {
                let rule = RuleId::at(i);
                r.push(rule);
                assert(r@[r@.len() - 1].index() == i);
            }
            assert forall|k: int| 0 <= k < i + 1 && #[trigger] self@[k] implies exists|x: int|
                0 <= x < r@.len() && r@[x].index() == k by {
                if k == i {
                    assert(r@[r@.len() - 1].index() == k);
                } else {
                    let x = choose|x: int| 0 <= x < before.len() && before[x].index() == k;
                    assert(r@[x] == before[x]);
                }
            }
            i = i + 1;
        }
        r
    }
}


/// Raw values of the two repeatable command-line rule flags.
///
/// `Some` means the flag appeared and therefore replaces the configuration
/// file wholesale. A real empty-string argument remains one element here.
#[derive(Debug, Clone, Copy)]
pub struct CliOverrides<'a> {
    pub disable: Option<&'a [String]>,
    pub enable: Option<&'a [String]>,
}

impl<'a> Default for CliOverrides<'a> {
    fn default() -> (r: Self)
        ensures
            r.disable is None,
            r.enable is None,
    {
        CliOverrides { disable: None, enable: None }
    }
}

impl<'a> CliOverrides<'a> {
    /// Whether either flag appeared.
    pub open spec fn present(self) -> bool {
        self.disable is Some || self.enable is Some
    }

    /// Whether either flag appeared.
    pub fn is_present(self) -> (r: bool)
        ensures
            r == self.present(),
    {
        self.disable.is_some() || self.enable.is_some()
    }
}

/// The origin of a configuration validation error.
#[derive(Debug, PartialEq, Eq)]
pub enum ConfigOrigin {
    /// A configuration file, by its path.
    File(String),
    CommandLine,
}

impl ConfigOrigin {
    /// A copy of this origin.
    pub fn duplicate(&self) -> (r: ConfigOrigin)
        ensures
            r == *self,
    {
        match self {
            ConfigOrigin::File(path) => ConfigOrigin::File(path.clone()),
            ConfigOrigin::CommandLine => ConfigOrigin::CommandLine,
        }
    }
}

/// A configuration value that violates the rule specification.
#[derive(Debug)]
pub enum ConfigError {
    InvalidType { origin: ConfigOrigin, key: &'static str, expected: &'static str },
    UnknownRule { origin: ConfigOrigin, key: &'static str },
    ConflictingRule { origin: ConfigOrigin },
    ExperimentalRuleEnabled { origin: ConfigOrigin, key: &'static str },
    InvalidSeverity { origin: ConfigOrigin },
    InvalidSkipZhUnits { origin: ConfigOrigin },
}

/// One value of a parsed configuration table, as far as the rules read it.
#[derive(Debug)]
pub enum ConfigValue {
    Boolean(bool),
    Text(String),
    Array(Vec<ConfigValue>),
    Table(Vec<(String, ConfigValue)>),
    /// Numbers, dates and anything else no key of the rules accepts.
    Other,
}

/// The value under `key` in a table: the first entry with that key.
pub open spec fn table_get(table: Seq<(String, ConfigValue)>, key: Seq<char>) -> Option<ConfigValue>
    decreases table.len(),
{
    if table.len() == 0 {
        None
    } else if table[0].0@ == key {
        Some(table[0].1)
    } else {
        table_get(table.drop_first(), key)
    }
}

/// The value under `key` in a table.
pub fn get<'a>(table: &'a [(String, ConfigValue)], key: &str) -> (r: Option<&'a ConfigValue>)
    ensures
        r matches Some(v) ==> table_get(table@, key@) == Some(*v),
        r is None ==> table_get(table@, key@) is None,
{
    let wanted = chars_of(key);
    let mut i: usize = 0;
    assert(table@.skip(0) =~= table@);
    while i < table.len()
        invariant
            i <= table@.len(),
            wanted@ == key@,
            table_get(table@, key@) == table_get(table@.skip(i as int), key@),
        decreases table@.len() - i,
    {
        proof {
            assert(table@.skip(i as int)[0] == table@[i as int]);
            assert(table@.skip(i as int).drop_first() =~= table@.skip(i + 1));
        }
        let name = chars_of(table[i].0.as_str());
        if same_chars(&name, &wanted) {
            return Some(&table[i].1);
        }
        i = i + 1;
    }
    None
}

/// The value under `[tool.limae]` in a parsed `pyproject.toml`: the
/// document's `tool` entry, when that is a table, and its `limae` entry.
pub open spec fn tool_entry(document: ConfigValue) -> Option<ConfigValue> {
    match document {
        ConfigValue::Table(root) => match table_get(root@, "tool"@) {
            Some(ConfigValue::Table(tool)) => table_get(tool@, "limae"@),
            _ => None,
        },
        _ => None,
    }
}

/// The value under `key` in a table, taken out of it.
fn take(entries: Vec<(String, ConfigValue)>, key: &str) -> (r: Option<ConfigValue>)
    ensures
        r == table_get(entries@, key@),
{
    let mut table = entries;
    let ghost all = table@;
    let wanted = chars_of(key);
    let mut i: usize = 0;
    assert(all.skip(0) =~= all);
    while i < table.len()
        invariant
            table@ == all,
            all == entries@,
            i <= all.len(),
            wanted@ == key@,
            table_get(all, key@) == table_get(all.skip(i as int), key@),
        decreases all.len() - i,
    {
        proof {
            assert(all.skip(i as int)[0] == all[i as int]);
            assert(all.skip(i as int).drop_first() =~= all.skip(i + 1));
        }
        let name = chars_of(table[i].0.as_str());
        if same_chars(&name, &wanted) {
            let entry = table.remove(i);
            assert(entry == all[i as int]);
            assert(table_get(all.skip(i as int), key@) == Some(all[i as int].1));
            return Some(entry.1);
        }
        i = i + 1;
    }
    None
}

/// The `[tool.limae]` value of a parsed `pyproject.toml`, when it has one.
pub fn tool_table(document: ConfigValue) -> (r: Option<ConfigValue>)
    ensures
        r == tool_entry(document),
{
    match document {
        ConfigValue::Table(root) => match take(root, "tool") {
            Some(ConfigValue::Table(tool)) => take(tool, "limae"),
            _ => None,
        },
        _ => None,
    }
}

/// A rule-set result, by the sets' contents.
pub open spec fn mask_result(r: Result<RuleMask, ConfigError>) -> Result<Seq<bool>, ConfigError> {
    match r {
        Ok(mask) => Ok(mask@),
        Err(error) => Err(error),
    }
}

/// The rules a configuration array lists; the first element that is not a
/// string, or not a known rule id, is the error.
pub open spec fn collect_rule_ids(
    items: Seq<ConfigValue>,
    key: &'static str,
    origin: ConfigOrigin,
) -> Result<Seq<bool>, ConfigError>
    decreases items.len(),
{
    if items.len() == 0 {
        Ok(no_rules())
    } else {
        match collect_rule_ids(items.drop_last(), key, origin) {
            Err(error) => Err(error),
            Ok(found) => match items.last() {
                ConfigValue::Text(name) => match rule_named(name@) {
                    Some(rule) => Ok(found.update(rule.index() as int, true)),
                    None => Err(ConfigError::UnknownRule { origin, key }),
                },
                _ => Err(ConfigError::InvalidType { origin, key, expected: "a list of rule ids" }),
            },
        }
    }
}

/// The rules a configuration table lists under `key`.
pub open spec fn table_rule_set(
    table: Seq<(String, ConfigValue)>,
    key: &'static str,
    origin: ConfigOrigin,
) -> Result<Seq<bool>, ConfigError> {
    match table_get(table, key@) {
        None => Ok(no_rules()),
        Some(ConfigValue::Array(items)) => collect_rule_ids(items@, key, origin),
        Some(_) => Err(ConfigError::InvalidType { origin, key, expected: "a list of rule ids" }),
    }
}

proof fn lemma_collect_rule_ids_error(items: Seq<ConfigValue>, k: int, key: &'static str, origin: ConfigOrigin)
    requires
        0 <= k <= items.len(),
        collect_rule_ids(items.take(k), key, origin) is Err,
    ensures
        collect_rule_ids(items, key, origin) == collect_rule_ids(items.take(k), key, origin),
    decreases items.len(),
{
    if k < items.len() {
        assert(items.drop_last().take(k) =~= items.take(k));
        lemma_collect_rule_ids_error(items.drop_last(), k, key, origin);
    } else {
        assert(items.take(k) =~= items);
    }
}

proof fn lemma_collect_cli_error(names: Seq<Seq<char>>, k: int, key: &'static str, origin: ConfigOrigin)
    requires
        0 <= k <= names.len(),
        collect_cli(names.take(k), key, origin) is Err,
    ensures
        collect_cli(names, key, origin) == collect_cli(names.take(k), key, origin),
    decreases names.len(),
{
    if k < names.len() {
        assert(names.drop_last().take(k) =~= names.take(k));
        lemma_collect_cli_error(names.drop_last(), k, key, origin);
    } else {
        assert(names.take(k) =~= names);
    }
}

proof fn lemma_cli_names_prefix(values: Seq<Seq<char>>, j: int)
    requires
        0 <= j <= values.len(),
    ensures
        cli_names(values.take(j)).len() <= cli_names(values).len(),
        cli_names(values).take(cli_names(values.take(j)).len() as int) == cli_names(values.take(j)),
    decreases values.len(),
{
    if j < values.len() {
        assert(values.drop_last().take(j) =~= values.take(j));
        lemma_cli_names_prefix(values.drop_last(), j);
        let p = cli_names(values.take(j));
        let d = cli_names(values.drop_last());
        assert(cli_names(values) == d + split(values.last(), false).map_values(
            |piece: Seq<char>| trim(piece),
        ));
        assert((d + split(values.last(), false).map_values(|piece: Seq<char>| trim(piece))).take(
            p.len() as int,
        ) =~= d.take(p.len() as int));
    } else {
        assert(values.take(j) =~= values);
        assert(cli_names(values).take(cli_names(values).len() as int) =~= cli_names(values));
    }
}

fn table_rule_ids(table: &[(String, ConfigValue)], key: &'static str, origin: &ConfigOrigin) -> (r:
    Result<RuleMask, ConfigError>)
    ensures
        mask_result(r) == table_rule_set(table@, key, *origin),
{
    let value = get(table, key);
    let items = match value {
        None => return Ok(RuleMask::new()),
        Some(ConfigValue::Array(items)) => items,
        Some(_) => {
            return Err(
                ConfigError::InvalidType {
                    origin: origin.duplicate(),
                    key,
                    expected: "a list of rule ids",
                },
            )
        },
    };
    let mut rules = RuleMask::new();
    let mut i: usize = 0;
    assert(items@.take(0) =~= Seq::<ConfigValue>::empty());
    while i < items.len()
        invariant
            i <= items@.len(),
            collect_rule_ids(items@.take(i as int), key, *origin) == Ok::<Seq<bool>, ConfigError>(
                rules@,
            ),
            table_rule_set(table@, key, *origin) == collect_rule_ids(items@, key, *origin),
        decreases items@.len() - i,
    {
        proof {
            assert(items@.take(i + 1).drop_last() =~= items@.take(i as int));
            assert(items@.take(i + 1).last() == items@[i as int]);
        }
        match &items[i] {
            ConfigValue::Text(name) => match RuleId::from_name(name.as_str()) {
                Some(rule) => rules.insert(rule),
                None => {
                    proof {
                        lemma_collect_rule_ids_error(items@, i + 1, key, *origin);
                    }
                    return Err(ConfigError::UnknownRule { origin: origin.duplicate(), key });
                },
            },
            _ => {
                proof {
                    lemma_collect_rule_ids_error(items@, i + 1, key, *origin);
                }
                return Err(
                    ConfigError::InvalidType {
                        origin: origin.duplicate(),
                        key,
                        expected: "a list of rule ids",
                    },
                );
            },
        }
        i = i + 1;
    }
    assert(items@.take(items@.len() as int) =~= items@);
    Ok(rules)
}

/// The values one command-line flag carries, none when it did not appear.
pub open spec fn flag_values(values: Option<&[String]>) -> Seq<Seq<char>> {
    match values {
        None => Seq::empty(),
        Some(values) => values@.map_values(|value: String| value@),
    }
}

/// The rule ids the flag values spell: each value split on commas, each
/// piece trimmed of Python whitespace.
pub open spec fn cli_names(values: Seq<Seq<char>>) -> Seq<Seq<char>>
    decreases values.len(),
{
    if values.len() == 0 {
        Seq::empty()
    } else {
        cli_names(values.drop_last()) + split(values.last(), false).map_values(
            |piece: Seq<char>| trim(piece),
        )
    }
}

/// The rules a list of command-line names selects: empty names are skipped,
/// and an unknown one is the error.
pub open spec fn collect_cli(names: Seq<Seq<char>>, key: &'static str, origin: ConfigOrigin) -> Result<
    Seq<bool>,
    ConfigError,
>
    decreases names.len(),
{
    if names.len() == 0 {
        Ok(no_rules())
    } else {
        match collect_cli(names.drop_last(), key, origin) {
            Err(error) => Err(error),
            Ok(found) => if names.last().len() == 0 {
                Ok(found)
            } else {
                match rule_named(names.last()) {
                    Some(rule) => Ok(found.update(rule.index() as int, true)),
                    None => Err(ConfigError::UnknownRule { origin, key }),
                }
            },
        }
    }
}

proof fn lemma_collect_cli_push(
    names: Seq<Seq<char>>,
    name: Seq<char>,
    key: &'static str,
    origin: ConfigOrigin,
)
    ensures
        collect_cli(names.push(name), key, origin) == match collect_cli(names, key, origin) {
            Err(error) => Err(error),
            Ok(found) => if name.len() == 0 {
                Ok(found)
            } else {
                match rule_named(name) {
                    Some(rule) => Ok(found.update(rule.index() as int, true)),
                    None => Err(ConfigError::UnknownRule { origin, key }),
                }
            },
        },
{
    assert(names.push(name).drop_last() =~= names);
}

fn cli_rule_ids(values: Option<&[String]>, key: &'static str, origin: &ConfigOrigin) -> (r: Result<
    RuleMask,
    ConfigError,
>)
    ensures
        mask_result(r) == collect_cli(cli_names(flag_values(values)), key, *origin),
{
    let mut rules = RuleMask::new();
    let listed = match values {
        None => return Ok(rules),
        Some(listed) => listed,
    };
    let ghost all = listed@.map_values(|value: String| value@);
    let ghost mut seen: Seq<Seq<char>> = Seq::empty();
    let mut vi: usize = 0;
    assert(all.take(0) =~= Seq::<Seq<char>>::empty());
    while vi < listed.len()
        invariant
            vi <= listed@.len(),
            all == listed@.map_values(|value: String| value@),
            flag_values(values) == all,
            seen == cli_names(all.take(vi as int)),
            collect_cli(seen, key, *origin) == Ok::<Seq<bool>, ConfigError>(rules@),
        decreases listed@.len() - vi,
    {
        let characters = chars_of(listed[vi].as_str());
        let pieces = split_chars(&characters, false);
        let ghost trimmed_pieces = split(all[vi as int], false).map_values(
            |piece: Seq<char>| trim(piece),
        );
        let ghost start = seen;
        let mut pi: usize = 0;
        assert(trimmed_pieces.take(0) =~= Seq::<Seq<char>>::empty());
        assert(start + trimmed_pieces.take(0) =~= start);
        while pi < pieces.len()
            invariant
                vi < listed@.len(),
                all == listed@.map_values(|value: String| value@),
                flag_values(values) == all,
                characters@ == all[vi as int],
                pi <= pieces@.len(),
                pieces@.len() == trimmed_pieces.len(),
                trimmed_pieces == split(all[vi as int], false).map_values(
                    |piece: Seq<char>| trim(piece),
                ),
                forall|k: int|
                    0 <= k < pieces@.len() ==> #[trigger] pieces@[k]@ == split(
                        characters@,
                        false,
                    )[k],
                start == cli_names(all.take(vi as int)),
                seen == start + trimmed_pieces.take(pi as int),
                collect_cli(seen, key, *origin) == Ok::<Seq<bool>, ConfigError>(rules@),
            decreases pieces@.len() - pi,
        {
            let name = trimmed(&pieces[pi]);
            proof {
                lemma_collect_cli_push(seen, name@, key, *origin);
                assert(start + trimmed_pieces.take(pi + 1) =~= seen.push(name@));
                seen = seen.push(name@);
            }
            if name.len() > 0 {
                let spelled = vec_to_string(&name);
                match RuleId::from_name(spelled.as_str()) {
                    Some(rule) => rules.insert(rule),
                    None => {
                        proof {
                            let whole = cli_names(all);
                            let upto = cli_names(all.take(vi + 1));
                            assert(all.take(vi + 1).drop_last() =~= all.take(vi as int));
                            assert(all.take(vi + 1).last() == all[vi as int]);
                            assert(upto == start + trimmed_pieces);
                            lemma_cli_names_prefix(all, vi + 1);
                            assert(whole.take(upto.len() as int) == upto);
                            assert(whole.take(seen.len() as int) =~= seen);
                            lemma_collect_cli_error(whole, seen.len() as int, key, *origin);
                        }
                        return Err(ConfigError::UnknownRule { origin: origin.duplicate(), key });
                    },
                }
            }
            pi = pi + 1;
        }
        proof {
            assert(trimmed_pieces.take(pieces@.len() as int) =~= trimmed_pieces);
            assert(all.take(vi + 1).drop_last() =~= all.take(vi as int));
            assert(all.take(vi + 1).last() == all[vi as int]);
        }
        vi = vi + 1;
    }
    assert(all.take(listed@.len() as int) =~= all);
    Ok(rules)
}


/// Whether the rule at one position may only be enabled as part of the whole
/// experimental set.
pub open spec fn rule_is_experimental(index: int) -> bool {
    11 <= index < rule_count()
}

/// What selecting `enabled` and `disabled` is refused for: a rule in both, or
/// an experimental rule enabled one by one.
pub open spec fn selection_check(
    disabled: Seq<bool>,
    enabled: Seq<bool>,
    origin: ConfigOrigin,
    enable_key: &'static str,
) -> Result<(), ConfigError> {
    if exists|i: int| 0 <= i < rule_count() && #[trigger] disabled[i] && enabled[i] {
        Err(ConfigError::ConflictingRule { origin })
    } else if exists|i: int| 0 <= i < rule_count() && #[trigger] enabled[i] && rule_is_experimental(i) {
        Err(ConfigError::ExperimentalRuleEnabled { origin, key: enable_key })
    } else {
        Ok(())
    }
}

fn validate_selection(
    disabled: &RuleMask,
    enabled: &RuleMask,
    origin: &ConfigOrigin,
    enable_key: &'static str,
) -> (r: Result<(), ConfigError>)
    ensures
        r == selection_check(disabled@, enabled@, *origin, enable_key),
{
    let all = RuleId::all();
    let mut i: usize = 0;
    while i < 21
        invariant
            i <= 21,
            all@.len() == 21,
            forall|k: int| 0 <= k < 21 ==> (#[trigger] all@[k]).index() == k,
            forall|k: int| 0 <= k < i ==> !(#[trigger] disabled@[k] && enabled@[k]),
        decreases 21 - i,
    {
        if disabled.contains(all[i]) && enabled.contains(all[i]) {
            return Err(ConfigError::ConflictingRule { origin: origin.duplicate() });
        }
        i = i + 1;
    }
    let mut i: usize = 11;
    while i < 21
        invariant
            11 <= i <= 21,
            all@.len() == 21,
            forall|k: int| 0 <= k < 21 ==> (#[trigger] all@[k]).index() == k,
            forall|k: int| 0 <= k < 21 ==> !(#[trigger] disabled@[k] && enabled@[k]),
            forall|k: int| 11 <= k < i ==> !(#[trigger] enabled@[k]),
        decreases 21 - i,
    {
        if enabled.contains(all[i]) {
            return Err(ConfigError::ExperimentalRuleEnabled { origin: origin.duplicate(), key: enable_key });
        }
        i = i + 1;
    }
    Ok(())
}

/// `active ∪ enabled − disabled`.
pub open spec fn selected(active: Seq<bool>, enabled: Seq<bool>, disabled: Seq<bool>) -> Seq<bool> {
    Seq::new(rule_count(), |i: int| (active[i] || enabled[i]) && !disabled[i])
}

fn apply_selection(active: &mut RuleMask, disabled: &RuleMask, enabled: &RuleMask)
    ensures
        final(active)@ == selected(old(active)@, enabled@, disabled@),
{
    let all = RuleId::all();
    let ghost start = active@;
    let mut i: usize = 0;
    while i < 21
        invariant
            i <= 21,
            all@.len() == 21,
            forall|k: int| 0 <= k < 21 ==> (#[trigger] all@[k]).index() == k,
            forall|k: int| 0 <= k < i ==> #[trigger] active@[k] == selected(start, enabled@, disabled@)[k],
            forall|k: int| i <= k < 21 ==> #[trigger] active@[k] == start[k],
        decreases 21 - i,
    {
        let rule = all[i];
        if disabled.contains(rule) {
            active.remove(rule);
        } else if enabled.contains(rule) {
            active.insert(rule);
        }
        i = i + 1;
    }
    assert(active@ =~= selected(start, enabled@, disabled@));
}

/// The value of a boolean key, false when it is absent.
pub open spec fn table_bool(table: Seq<(String, ConfigValue)>, key: &'static str, origin: ConfigOrigin) -> Result<bool, ConfigError> {
    match table_get(table, key@) {
        None => Ok(false),
        Some(ConfigValue::Boolean(value)) => Ok(value),
        Some(_) => Err(ConfigError::InvalidType { origin, key, expected: "a boolean" }),
    }
}

fn optional_bool(table: &[(String, ConfigValue)], key: &'static str, origin: &ConfigOrigin) -> (r: Result<bool, ConfigError>)
    ensures
        r == table_bool(table@, key, *origin),
{
    match get(table, key) {
        None => Ok(false),
        Some(ConfigValue::Boolean(value)) => Ok(*value),
        Some(_) => Err(ConfigError::InvalidType { origin: origin.duplicate(), key, expected: "a boolean" }),
    }
}

/// The CJK units `zh-typography-5` leaves alone, empty when absent.
pub open spec fn table_skip_units(table: Seq<(String, ConfigValue)>, origin: ConfigOrigin) -> Result<Seq<char>, ConfigError> {
    match table_get(table, "skip_zh_units"@) {
        None => Ok(Seq::empty()),
        Some(ConfigValue::Text(units)) => if forall|i: int| 0 <= i < units@.len() ==> cjk(#[trigger] units@[i]) {
            Ok(units@)
        } else {
            Err(ConfigError::InvalidSkipZhUnits { origin })
        },
        Some(_) => Err(ConfigError::InvalidType { origin, key: "skip_zh_units", expected: "a string of CJK characters" }),
    }
}

/// A text result, by the text's characters.
pub open spec fn text_result(r: Result<String, ConfigError>) -> Result<Seq<char>, ConfigError> {
    match r {
        Ok(text) => Ok(text@),
        Err(error) => Err(error),
    }
}

fn skip_zh_units(table: &[(String, ConfigValue)], origin: &ConfigOrigin) -> (r: Result<String, ConfigError>)
    ensures
        text_result(r) == table_skip_units(table@, *origin),
{
    match get(table, "skip_zh_units") {
        None => Ok(String::new()),
        Some(ConfigValue::Text(units)) => {
            if all_cjk(&chars_of(units.as_str())) {
                Ok(units.clone())
            } else {
                Err(ConfigError::InvalidSkipZhUnits { origin: origin.duplicate() })
            }
        },
        Some(_) => Err(ConfigError::InvalidType { origin: origin.duplicate(), key: "skip_zh_units", expected: "a string of CJK characters" }),
    }
}

/// No severity overrides.
pub open spec fn no_overrides() -> Seq<Option<Severity>> {
    Seq::new(rule_count(), |i: int| None)
}

/// The severity a configuration value names.
pub open spec fn severity_named(value: ConfigValue) -> Option<Severity> {
    match value {
        ConfigValue::Text(name) => if name@ == "error"@ {
            Some(Severity::Error)
        } else if name@ == "warning"@ {
            Some(Severity::Warning)
        } else {
            None
        },
        _ => None,
    }
}

/// The overrides a `severity` table sets, later entries winning.
pub open spec fn collect_severities(entries: Seq<(String, ConfigValue)>, origin: ConfigOrigin) -> Result<Seq<Option<Severity>>, ConfigError>
    decreases entries.len(),
{
    if entries.len() == 0 {
        Ok(no_overrides())
    } else {
        match collect_severities(entries.drop_last(), origin) {
            Err(error) => Err(error),
            Ok(found) => match rule_named(entries.last().0@) {
                None => Err(ConfigError::UnknownRule { origin, key: "severity" }),
                Some(rule) => match severity_named(entries.last().1) {
                    Some(severity) => Ok(found.update(rule.index() as int, Some(severity))),
                    None => Err(ConfigError::InvalidSeverity { origin }),
                },
            },
        }
    }
}

/// The severity overrides of a configuration table.
pub open spec fn table_severities(table: Seq<(String, ConfigValue)>, origin: ConfigOrigin) -> Result<Seq<Option<Severity>>, ConfigError> {
    match table_get(table, "severity"@) {
        None => Ok(no_overrides()),
        Some(ConfigValue::Table(entries)) => collect_severities(entries@, origin),
        Some(_) => Err(ConfigError::InvalidType { origin, key: "severity", expected: "a table of rule id = severity" }),
    }
}

proof fn lemma_collect_severities_error(entries: Seq<(String, ConfigValue)>, k: int, origin: ConfigOrigin)
    requires
        0 <= k <= entries.len(),
        collect_severities(entries.take(k), origin) is Err,
    ensures
        collect_severities(entries, origin) == collect_severities(entries.take(k), origin),
    decreases entries.len(),
{
    if k < entries.len() {
        assert(entries.drop_last().take(k) =~= entries.take(k));
        lemma_collect_severities_error(entries.drop_last(), k, origin);
    } else {
        assert(entries.take(k) =~= entries);
    }
}

/// A severity table's view.
pub open spec fn overrides_result(r: Result<Vec<Option<Severity>>, ConfigError>) -> Result<Seq<Option<Severity>>, ConfigError> {
    match r {
        Ok(found) => Ok(found@),
        Err(error) => Err(error),
    }
}

fn none_overrides() -> (r: Vec<Option<Severity>>)
    ensures
        r@ == no_overrides(),
{
    let mut r: Vec<Option<Severity>> = Vec::new();
    let mut i: usize = 0;
    while i < 21
        invariant
            i <= 21,
            r@.len() == i,
            forall|k: int| 0 <= k < i ==> (#[trigger] r@[k]) is None,
        decreases 21 - i,
    {
        r.push(None);
        i = i + 1;
    }
    assert(r@ =~= no_overrides());
    r
}

fn severity_overrides(table: &[(String, ConfigValue)], origin: &ConfigOrigin) -> (r: Result<Vec<Option<Severity>>, ConfigError>)
    ensures
        overrides_result(r) == table_severities(table@, *origin),
        r matches Ok(found) ==> found@.len() == rule_count(),
{
    let entries = match get(table, "severity") {
        None => return Ok(none_overrides()),
        Some(ConfigValue::Table(entries)) => entries,
        Some(_) => return Err(ConfigError::InvalidType { origin: origin.duplicate(), key: "severity", expected: "a table of rule id = severity" }),
    };
    let mut found = none_overrides();
    let mut i: usize = 0;
    assert(entries@.take(0) =~= Seq::<(String, ConfigValue)>::empty());
    while i < entries.len()
        invariant
            i <= entries@.len(),
            found@.len() == 21,
            collect_severities(entries@.take(i as int), *origin) == Ok::<Seq<Option<Severity>>, ConfigError>(found@),
            table_severities(table@, *origin) == collect_severities(entries@, *origin),
        decreases entries@.len() - i,
    {
        proof {
            assert(entries@.take(i + 1).drop_last() =~= entries@.take(i as int));
            assert(entries@.take(i + 1).last() == entries@[i as int]);
        }
        let rule = match RuleId::from_name(entries[i].0.as_str()) {
            Some(rule) => rule,
            None => {
                proof { lemma_collect_severities_error(entries@, i + 1, *origin); }
                return Err(ConfigError::UnknownRule { origin: origin.duplicate(), key: "severity" });
            },
        };
        let severity = match &entries[i].1 {
            ConfigValue::Text(name) => {
                if spells(name.as_str(), "error") {
                    Some(Severity::Error)
                } else if spells(name.as_str(), "warning") {
                    Some(Severity::Warning)
                } else {
                    None
                }
            },
            _ => None,
        };
        match severity {
            Some(severity) => {
                found.set(rule.position(), Some(severity));
            },
            None => {
                proof { lemma_collect_severities_error(entries@, i + 1, *origin); }
                return Err(ConfigError::InvalidSeverity { origin: origin.duplicate() });
            },
        }
        i = i + 1;
    }
    assert(entries@.take(entries@.len() as int) =~= entries@);
    Ok(found)
}

/// What a resolved configuration says: the enabled rules, the severity
/// overrides, and the CJK units exempt from `zh-typography-5`.
pub struct ConfigView {
    pub enabled: Seq<bool>,
    pub severity: Seq<Option<Severity>>,
    pub skip_zh_units: Seq<char>,
}

/// The rules that are on without any configuration.
pub open spec fn default_rules() -> Seq<bool> {
    Seq::new(rule_count(), |i: int| rule_default_enabled(i as nat))
}

/// The experimental rules.
pub open spec fn experimental_rules() -> Seq<bool> {
    Seq::new(rule_count(), |i: int| rule_is_experimental(i))
}

/// The configuration of a run that configures nothing.
pub open spec fn default_view() -> ConfigView {
    ConfigView { enabled: default_rules(), severity: no_overrides(), skip_zh_units: Seq::empty() }
}

/// The effective rule configuration for one run.
pub struct ResolvedConfig {
    enabled: RuleMask,
    severity: Vec<Option<Severity>>,
    skip_zh_units: String,
}

impl View for ResolvedConfig {
    type V = ConfigView;

    closed spec fn view(&self) -> ConfigView {
        ConfigView {
            enabled: self.enabled@,
            severity: Seq::new(rule_count(), |i: int| self.severity@[i]),
            skip_zh_units: self.skip_zh_units@,
        }
    }
}

impl Clone for ResolvedConfig {
    fn clone(&self) -> (r: Self)
        ensures
            r@ == self@,
    {
        proof { use_type_invariant(self); }
        let severity = copy_overrides(&self.severity);
        let r = ResolvedConfig { enabled: self.enabled.copy(), severity, skip_zh_units: self.skip_zh_units.clone() };
        assert(r@.severity =~= self@.severity);
        r
    }
}

fn copy_overrides(v: &Vec<Option<Severity>>) -> (r: Vec<Option<Severity>>)
    ensures
        r@ == v@,
{
    let mut r: Vec<Option<Severity>> = Vec::new();
    let mut i: usize = 0;
    while i < v.len()
        invariant
            i <= v@.len(),
            r@ == v@.take(i as int),
        decreases v@.len() - i,
    {
        r.push(v[i]);
        i = i + 1;
        assert(r@ =~= v@.take(i as int));
    }
    assert(v@.take(v@.len() as int) =~= v@);
    r
}

impl Default for ResolvedConfig {
    fn default() -> (r: Self)
        ensures
            r@ == default_view(),
    {
        ResolvedConfig::with_rules(default_mask())
    }
}

fn default_mask() -> (r: RuleMask)
    ensures
        r@ == default_rules(),
{
    let mut mask = RuleMask::new();
    let all = RuleId::all();
    let mut i: usize = 0;
    while i < 21
        invariant
            i <= 21,
            all@.len() == 21,
            forall|k: int| 0 <= k < 21 ==> (#[trigger] all@[k]).index() == k,
            forall|k: int| 0 <= k < i ==> #[trigger] mask@[k] == rule_default_enabled(k as nat),
            forall|k: int| i <= k < 21 ==> !(#[trigger] mask@[k]),
        decreases 21 - i,
    {
        if i < 11 && i != 8 {
            mask.insert(all[i]);
        }
        i = i + 1;
    }
    assert(mask@ =~= default_rules());
    mask
}

fn experimental_mask() -> (r: RuleMask)
    ensures
        r@ == experimental_rules(),
{
    let mut mask = RuleMask::new();
    let all = RuleId::all();
    let mut i: usize = 0;
    while i < 21
        invariant
            i <= 21,
            all@.len() == 21,
            forall|k: int| 0 <= k < 21 ==> (#[trigger] all@[k]).index() == k,
            forall|k: int| 0 <= k < i ==> #[trigger] mask@[k] == rule_is_experimental(k),
            forall|k: int| i <= k < 21 ==> !(#[trigger] mask@[k]),
        decreases 21 - i,
    {
        if i >= 11 {
            mask.insert(all[i]);
        }
        i = i + 1;
    }
    assert(mask@ =~= experimental_rules());
    mask
}

impl ResolvedConfig {
    #[verifier::type_invariant]
    spec fn one_override_per_rule(self) -> bool {
        self.severity@.len() == rule_count()
    }

    fn with_rules(enabled: RuleMask) -> (r: ResolvedConfig)
        ensures
            r@ == (ConfigView { enabled: enabled@, severity: no_overrides(), skip_zh_units: Seq::empty() }),
    {
        let r = ResolvedConfig { enabled, severity: none_overrides(), skip_zh_units: String::new() };
        assert(r@.severity =~= no_overrides());
        r
    }

    /// Return whether a rule participates in this run.
    #[must_use]
    pub fn is_enabled(&self, rule: RuleId) -> (r: bool)
        ensures
            r == self@.enabled[rule.index() as int],
    {
        self.enabled.contains(rule)
    }

    /// The enabled rules, in specification order.
    pub fn enabled_rules(&self) -> (r: Vec<RuleId>)
        ensures
            forall|i: int| 0 <= i < r@.len() ==> self@.enabled[(#[trigger] r@[i]).index() as int],
            forall|k: int| 0 <= k < rule_count() && #[trigger] self@.enabled[k] ==> exists|i: int|
                0 <= i < r@.len() && r@[i].index() == k,
            forall|i: int, j: int| 0 <= i < j < r@.len() ==> r@[i].index() < r@[j].index(),
    {
        self.enabled.rules()
    }

    /// Return a rule's override or its specification default.
    #[must_use]
    pub fn severity(&self, rule: RuleId) -> (r: Severity)
        ensures
            r == match self@.severity[rule.index() as int] {
                Some(severity) => severity,
                None => rule_default_severity(rule.index()),
            },
    {
        proof { use_type_invariant(self); }
        match self.severity[rule.position()] {
            Some(severity) => severity,
            None => rule.metadata().default_severity,
        }
    }

    /// Return the configured CJK unit exemptions for `zh-typography-5`.
    #[must_use]
    pub fn skip_zh_units(&self) -> (r: &str)
        ensures
            r@ == self@.skip_zh_units,
    {
        self.skip_zh_units.as_str()
    }

    /// This configuration with the given rules switched off and everything
    /// else kept; borrowed when nothing is switched off.
    pub fn without_rules<'config>(&'config self, disabled: &RuleMask) -> (r: std::borrow::Cow<'config, Self>)
        ensures
            r@ == (ConfigView { enabled: selected(self@.enabled, no_rules(), disabled@), ..self@ }),
            disabled@ == no_rules() ==> (r matches std::borrow::Cow::Borrowed(same) && same == self),
    {
        if disabled.is_empty() {
            assert(selected(self@.enabled, no_rules(), disabled@) =~= self@.enabled);
            return std::borrow::Cow::Borrowed(self);
        }
        let mut masked = self.clone();
        proof { use_type_invariant(&masked); }
        let mut enabled = masked.enabled.copy();
        let nothing = RuleMask::new();
        apply_selection(&mut enabled, disabled, &nothing);
        let r = ResolvedConfig { enabled, severity: masked.severity, skip_zh_units: masked.skip_zh_units };
        std::borrow::Cow::Owned(r)
    }
}

/// A configuration result, by the configuration's view.
pub open spec fn config_result(r: Result<ResolvedConfig, ConfigError>) -> Result<ConfigView, ConfigError> {
    match r {
        Ok(config) => Ok(config@),
        Err(error) => Err(error),
    }
}

/// What the command-line flags resolve to: `default ∪ enable − disable`,
/// with no severity overrides and no exempt units.
pub open spec fn cli_resolution(cli: CliOverrides) -> Result<ConfigView, ConfigError> {
    let origin = ConfigOrigin::CommandLine;
    match collect_cli(cli_names(flag_values(cli.disable)), "--disable", origin) {
        Err(error) => Err(error),
        Ok(disabled) => match collect_cli(cli_names(flag_values(cli.enable)), "--enable", origin) {
            Err(error) => Err(error),
            Ok(enabled) => match selection_check(disabled, enabled, origin, "--enable") {
                Err(error) => Err(error),
                Ok(_) => Ok(ConfigView {
                    enabled: selected(default_rules(), enabled, disabled),
                    severity: no_overrides(),
                    skip_zh_units: Seq::empty(),
                }),
            },
        },
    }
}

/// What a configuration table resolves to. The enabled set is
/// `((default ∪ experimental) ∪ enable) − disable`, the experimental set
/// joining only when `enable_experimental` is true.
pub open spec fn table_resolution(table: Seq<(String, ConfigValue)>, origin: ConfigOrigin) -> Result<ConfigView, ConfigError> {
    match table_rule_set(table, "disable", origin) {
        Err(error) => Err(error),
        Ok(disabled) => match table_rule_set(table, "enable", origin) {
            Err(error) => Err(error),
            Ok(enabled) => match selection_check(disabled, enabled, origin, "enable") {
                Err(error) => Err(error),
                Ok(_) => match table_bool(table, "enable_experimental", origin) {
                    Err(error) => Err(error),
                    Ok(experimental) => match table_skip_units(table, origin) {
                        Err(error) => Err(error),
                        Ok(units) => match table_severities(table, origin) {
                            Err(error) => Err(error),
                            Ok(severity) => Ok(ConfigView {
                                enabled: Seq::new(rule_count(), |i: int|
                                    ((default_rules()[i] || (experimental && experimental_rules()[i]))
                                        || enabled[i]) && !disabled[i]),
                                severity,
                                skip_zh_units: units,
                            }),
                        },
                    },
                },
            },
        },
    }
}

fn resolve_cli(cli: CliOverrides<'_>) -> (r: Result<ResolvedConfig, ConfigError>)
    ensures
        config_result(r) == cli_resolution(cli),
{
    let origin = ConfigOrigin::CommandLine;
    let disabled = match cli_rule_ids(cli.disable, "--disable", &origin) {
        Ok(rules) => rules,
        Err(error) => return Err(error),
    };
    let enabled = match cli_rule_ids(cli.enable, "--enable", &origin) {
        Ok(rules) => rules,
        Err(error) => return Err(error),
    };
    match validate_selection(&disabled, &enabled, &origin, "--enable") {
        Ok(()) => {},
        Err(error) => return Err(error),
    }
    let mut active = default_mask();
    apply_selection(&mut active, &disabled, &enabled);
    Ok(ResolvedConfig::with_rules(active))
}

fn resolve_table(table: &[(String, ConfigValue)], origin: ConfigOrigin) -> (r: Result<ResolvedConfig, ConfigError>)
    ensures
        config_result(r) == table_resolution(table@, origin),
{
    let disabled = match table_rule_ids(table, "disable", &origin) {
        Ok(rules) => rules,
        Err(error) => return Err(error),
    };
    let enabled = match table_rule_ids(table, "enable", &origin) {
        Ok(rules) => rules,
        Err(error) => return Err(error),
    };
    match validate_selection(&disabled, &enabled, &origin, "enable") {
        Ok(()) => {},
        Err(error) => return Err(error),
    }
    let experimental = match optional_bool(table, "enable_experimental", &origin) {
        Ok(value) => value,
        Err(error) => return Err(error),
    };
    let mut active = default_mask();
    if experimental {
        let extra = experimental_mask();
        apply_selection(&mut active, &RuleMask::new(), &extra);
    }
    apply_selection(&mut active, &disabled, &enabled);
    let units = match skip_zh_units(table, &origin) {
        Ok(units) => units,
        Err(error) => return Err(error),
    };
    let severity = match severity_overrides(table, &origin) {
        Ok(severity) => severity,
        Err(error) => return Err(error),
    };
    let r = ResolvedConfig { enabled: active, severity, skip_zh_units: units };
    assert(r@.severity =~= severity@);
    assert(r@.enabled =~= Seq::new(rule_count(), |i: int|
        ((default_rules()[i] || (experimental && experimental_rules()[i])) || enabled@[i]) && !disabled@[i]));
    Ok(r)
}

/// What `resolve` answers: the flags when either appeared, else the table
/// found, else the defaults.
pub open spec fn resolution(cli: CliOverrides, found: Option<(String, ConfigValue)>) -> Result<ConfigView, ConfigError> {
    if cli.present() {
        cli_resolution(cli)
    } else {
        match found {
            None => Ok(default_view()),
            Some((path, ConfigValue::Table(table))) => table_resolution(table@, ConfigOrigin::File(path)),
            Some((path, _)) => Err(ConfigError::InvalidType {
                origin: ConfigOrigin::File(path),
                key: "tool.limae",
                expected: "a table",
            }),
        }
    }
}

/// Resolve the command-line rule flags, or else the configuration that
/// discovery found (its path, and the table under the file's rule keys).
///
/// The flags replace the configuration wholesale: when either appeared,
/// `found` is not read, and discovery need not run at all.
pub fn resolve(cli: CliOverrides<'_>, found: Option<(String, ConfigValue)>) -> (r: Result<ResolvedConfig, ConfigError>)
    ensures
        config_result(r) == resolution(cli, found),
{
    if cli.is_present() {
        return resolve_cli(cli);
    }
    match found {
        None => Ok(ResolvedConfig::default()),
        Some((path, ConfigValue::Table(table))) => resolve_table(&table, ConfigOrigin::File(path)),
        Some((path, _)) => Err(ConfigError::InvalidType {
            origin: ConfigOrigin::File(path),
            key: "tool.limae",
            expected: "a table",
        }),
    }
}

proof fn lemma_rule_names_are_not_empty(index: nat)
    requires
        index < rule_count(),
    ensures
        rule_name(index).len() > 0,
{
    reveal_strlit("zh-typography-1");
    reveal_strlit("zh-typography-2");
    reveal_strlit("zh-typography-3");
    reveal_strlit("zh-typography-4");
    reveal_strlit("zh-typography-5");
    reveal_strlit("zh-typography-6");
    reveal_strlit("zh-typography-7");
    reveal_strlit("zh-typography-8");
    reveal_strlit("zh-typography-9");
    reveal_strlit("zh-typography-10");
    reveal_strlit("zh-typography-11");
    reveal_strlit("zh-tell-1");
    reveal_strlit("zh-tell-2");
    reveal_strlit("zh-tell-3");
    reveal_strlit("zh-tell-4");
    reveal_strlit("en-tell-1");
    reveal_strlit("en-tell-2");
    reveal_strlit("en-tell-3");
    reveal_strlit("zh-tell-5");
    reveal_strlit("zh-word-1");
    reveal_strlit("zh-word-2");
}

proof fn lemma_collect_cli_members(names: Seq<Seq<char>>, key: &'static str, origin: ConfigOrigin, i: int)
    requires
        0 <= i < rule_count(),
        collect_cli(names, key, origin) is Ok,
    ensures
        collect_cli(names, key, origin)->Ok_0.len() == rule_count(),
        collect_cli(names, key, origin)->Ok_0[i] == names.contains(rule_name(i as nat)),
    decreases names.len(),
{
    let wanted = rule_name(i as nat);
    if names.len() > 0 {
        let prev = names.drop_last();
        let last = names.last();
        lemma_collect_cli_members(prev, key, origin, i);
        assert(names =~= prev.push(last));
        if prev.contains(wanted) {
            let k = choose|k: int| 0 <= k < prev.len() && prev[k] == wanted;
            assert(names[k] == wanted);
        }
        if last == wanted {
            assert(names[names.len() - 1] == wanted);
        }
        if names.contains(wanted) {
            let k = choose|k: int| 0 <= k < names.len() && names[k] == wanted;
            if k < names.len() - 1 {
                assert(prev[k] == wanted);
            }
        }
        lemma_rule_names_are_not_empty(i as nat);
        lemma_rule_at_index(i as nat);
        if last.len() != 0 {
            lemma_find_rule_from(last, 0);
            let rule = rule_named(last)->Some_0;
            law_rule_names_are_distinct(rule, rule_at(i as nat));
        }
    }
}

/// With either rule flag given and the flags accepted, rule `i` is on exactly
/// when it is on by default or an `--enable` name is its id, and no
/// `--disable` name is; no severity is overridden and no unit is exempt,
/// whatever configuration file was found.
pub proof fn law_flags_select_rules(cli: CliOverrides, found: Option<(String, ConfigValue)>, i: int)
    requires
        cli.present(),
        0 <= i < rule_count(),
        resolution(cli, found) is Ok,
    ensures
        ({
            let view = resolution(cli, found)->Ok_0;
            let disabled = cli_names(flag_values(cli.disable));
            let enabled = cli_names(flag_values(cli.enable));
            &&& view.enabled[i] == ((rule_default_enabled(i as nat) || enabled.contains(rule_name(i as nat)))
                && !disabled.contains(rule_name(i as nat)))
            &&& view.severity == no_overrides()
            &&& view.skip_zh_units == Seq::<char>::empty()
        }),
{
    let origin = ConfigOrigin::CommandLine;
    lemma_collect_cli_members(cli_names(flag_values(cli.disable)), "--disable", origin, i);
    lemma_collect_cli_members(cli_names(flag_values(cli.enable)), "--enable", origin, i);
}

/// Whether a non-empty name among `names` is no rule's id.
pub open spec fn names_unknown(names: Seq<Seq<char>>) -> bool {
    exists|k: int| 0 <= k < names.len() && names[k].len() > 0 && #[trigger] rule_named(names[k]) is None
}

proof fn lemma_unknown_names_refused(names: Seq<Seq<char>>, key: &'static str, origin: ConfigOrigin)
    ensures
        (collect_cli(names, key, origin) is Err) == names_unknown(names),
        collect_cli(names, key, origin) is Err ==> collect_cli(names, key, origin)
            == Err::<Seq<bool>, ConfigError>(ConfigError::UnknownRule { origin, key }),
    decreases names.len(),
{
    if names.len() > 0 {
        let prev = names.drop_last();
        lemma_unknown_names_refused(prev, key, origin);
        if names_unknown(prev) {
            let k = choose|k: int| 0 <= k < prev.len() && prev[k].len() > 0 && #[trigger] rule_named(prev[k]) is None;
            assert(names[k] == prev[k]);
        }
        if names_unknown(names) {
            let k = choose|k: int| 0 <= k < names.len() && names[k].len() > 0 && #[trigger] rule_named(names[k]) is None;
            if k < names.len() - 1 {
                assert(prev[k] == names[k]);
            }
        }
    }
}

/// The rules the command-line flags select, once every name is known.
pub open spec fn flag_selection(disabled: Seq<Seq<char>>, enabled: Seq<Seq<char>>) -> Seq<bool> {
    Seq::new(
        rule_count(),
        |i: int|
            (rule_default_enabled(i as nat) || enabled.contains(rule_name(i as nat))) && !disabled.contains(
                rule_name(i as nat),
            ),
    )
}

/// What the command-line flags are answered, stated over the names they
/// spell: an unknown `--disable` name, then an unknown `--enable` name, then a
/// rule named by both, then an experimental rule enabled by name is refused, in
/// that order; anything else selects the default rules, those enabled, less
/// those disabled. The configuration file found plays no part.
pub proof fn law_flag_answers(cli: CliOverrides, found: Option<(String, ConfigValue)>)
    requires
        cli.present(),
    ensures
        ({
            let origin = ConfigOrigin::CommandLine;
            let disabled = cli_names(flag_values(cli.disable));
            let enabled = cli_names(flag_values(cli.enable));
            resolution(cli, found) == if names_unknown(disabled) {
                Err(ConfigError::UnknownRule { origin, key: "--disable" })
            } else if names_unknown(enabled) {
                Err(ConfigError::UnknownRule { origin, key: "--enable" })
            } else if exists|i: int|
                0 <= i < rule_count() && #[trigger] disabled.contains(rule_name(i as nat)) && enabled.contains(
                    rule_name(i as nat),
                ) {
                Err(ConfigError::ConflictingRule { origin })
            } else if exists|i: int| 11 <= i < rule_count() && #[trigger] enabled.contains(rule_name(i as nat)) {
                Err(ConfigError::ExperimentalRuleEnabled { origin, key: "--enable" })
            } else {
                Ok(
                    ConfigView {
                        enabled: flag_selection(disabled, enabled),
                        severity: no_overrides(),
                        skip_zh_units: Seq::empty(),
                    },
                )
            }
        }),
{
    let origin = ConfigOrigin::CommandLine;
    let disabled = cli_names(flag_values(cli.disable));
    let enabled = cli_names(flag_values(cli.enable));
    lemma_unknown_names_refused(disabled, "--disable", origin);
    lemma_unknown_names_refused(enabled, "--enable", origin);
    if !names_unknown(disabled) && !names_unknown(enabled) {
        let d = collect_cli(disabled, "--disable", origin)->Ok_0;
        let e = collect_cli(enabled, "--enable", origin)->Ok_0;
        assert forall|i: int| 0 <= i < rule_count() implies d[i] == disabled.contains(rule_name(i as nat))
            && e[i] == enabled.contains(rule_name(i as nat)) && d.len() == rule_count() && e.len()
            == rule_count() by {
            lemma_collect_cli_members(disabled, "--disable", origin, i);
            lemma_collect_cli_members(enabled, "--enable", origin, i);
        }
        if exists|i: int| 0 <= i < rule_count() && #[trigger] d[i] && e[i] {
            let i = choose|i: int| 0 <= i < rule_count() && #[trigger] d[i] && e[i];
            assert(disabled.contains(rule_name(i as nat)));
        }
        if exists|i: int| 0 <= i < rule_count() && #[trigger] disabled.contains(rule_name(i as nat))
            && enabled.contains(rule_name(i as nat)) {
            let i = choose|i: int| 0 <= i < rule_count() && #[trigger] disabled.contains(rule_name(i as nat))
                && enabled.contains(rule_name(i as nat));
            assert(d[i] && e[i]);
        }
        if exists|i: int| 0 <= i < rule_count() && #[trigger] e[i] && rule_is_experimental(i) {
            let i = choose|i: int| 0 <= i < rule_count() && #[trigger] e[i] && rule_is_experimental(i);
            assert(enabled.contains(rule_name(i as nat)));
        }
        if exists|i: int| 11 <= i < rule_count() && #[trigger] enabled.contains(rule_name(i as nat)) {
            let i = choose|i: int| 11 <= i < rule_count() && #[trigger] enabled.contains(rule_name(i as nat));
            assert(e[i] && rule_is_experimental(i));
        }
        assert(selected(default_rules(), e, d) =~= flag_selection(disabled, enabled));
    }
}

proof fn lemma_severity_entry(entries: Seq<(String, ConfigValue)>, origin: ConfigOrigin, k: int, rule: RuleId)
    requires
        0 <= k < entries.len(),
        collect_severities(entries, origin) is Ok,
        rule_named(entries[k].0@) == Some(rule),
        forall|j: int| k < j < entries.len() ==> rule_named(#[trigger] entries[j].0@) != Some(rule),
    ensures
        collect_severities(entries, origin)->Ok_0[rule.index() as int] == severity_named(entries[k].1),
        severity_named(entries[k].1) is Some,
        collect_severities(entries, origin)->Ok_0.len() == rule_count(),
    decreases entries.len(),
{
    lemma_severities_length(entries.drop_last(), origin);
    let rest = entries.drop_last();
    if collect_severities(rest, origin) is Err {
        assert(collect_severities(entries, origin) is Err);
    }
    lemma_find_rule_from(entries.last().0@, 0);
    lemma_rule_at_index(rule.index());
    if k < entries.len() - 1 {
        assert forall|j: int| k < j < rest.len() implies rule_named(#[trigger] rest[j].0@) != Some(rule) by {
            assert(rest[j] == entries[j]);
        }
        assert(rest[k] == entries[k]);
        lemma_severity_entry(rest, origin, k, rule);
        let other = rule_named(entries.last().0@)->Some_0;
        assert(other != rule);
        lemma_rule_at_index(other.index());
        law_rule_names_are_distinct(other, rule);
        lemma_find_rule_from(entries[k].0@, 0);
        assert(other.index() != rule.index());
    }
}

proof fn lemma_severities_length(entries: Seq<(String, ConfigValue)>, origin: ConfigOrigin)
    ensures
        collect_severities(entries, origin) is Ok ==> collect_severities(entries, origin)->Ok_0.len() == rule_count(),
    decreases entries.len(),
{
    if entries.len() > 0 {
        lemma_severities_length(entries.drop_last(), origin);
        lemma_find_rule_from(entries.last().0@, 0);
    }
}

/// A configuration table's `severity` entry sets its rule's severity: the
/// text `"error"` makes it an error and `"warning"` a warning, whatever came
/// before; the last entry for a rule wins. The resolved configuration then
/// reports that severity for the rule.
pub proof fn law_severity_entry_sets_the_severity(
    table: Seq<(String, ConfigValue)>,
    origin: ConfigOrigin,
    entries: Vec<(String, ConfigValue)>,
    k: int,
    rule: RuleId,
)
    requires
        table_get(table, "severity"@) == Some(ConfigValue::Table(entries)),
        table_resolution(table, origin) is Ok,
        0 <= k < entries@.len(),
        rule_named(entries@[k].0@) == Some(rule),
        forall|j: int| k < j < entries@.len() ==> rule_named(#[trigger] entries@[j].0@) != Some(rule),
    ensures
        entries@[k].1 matches ConfigValue::Text(name) && name@ == "error"@ ==> table_resolution(
            table,
            origin,
        )->Ok_0.severity[rule.index() as int] == Some(Severity::Error),
        entries@[k].1 matches ConfigValue::Text(name) && name@ == "warning"@ ==> table_resolution(
            table,
            origin,
        )->Ok_0.severity[rule.index() as int] == Some(Severity::Warning),
        entries@[k].1 matches ConfigValue::Text(name) && (name@ == "error"@ || name@ == "warning"@),
{
    lemma_severity_entry(entries@, origin, k, rule);
    reveal_strlit("error");
    reveal_strlit("warning");
    assert("error"@ != "warning"@) by {
        assert("error"@.len() != "warning"@.len());
    }
}

/// When either rule flag appeared, the configuration file has no effect: two
/// runs with the same flags resolve the same whatever discovery found.
pub proof fn law_flags_replace_the_file(
    cli: CliOverrides,
    one: Option<(String, ConfigValue)>,
    other: Option<(String, ConfigValue)>,
)
    requires
        cli.present(),
    ensures
        resolution(cli, one) == resolution(cli, other),
{
}

/// A resolved table's enabled set is `((default ∪ experimental) ∪ enable) −
/// disable`, with the experimental set joining only when
/// `enable_experimental` is true.
pub proof fn law_enabled_set(table: Seq<(String, ConfigValue)>, origin: ConfigOrigin, i: int)
    requires
        0 <= i < rule_count(),
        table_resolution(table, origin) is Ok,
    ensures
        ({
            let view = table_resolution(table, origin)->Ok_0;
            let disabled = table_rule_set(table, "disable", origin)->Ok_0;
            let enabled = table_rule_set(table, "enable", origin)->Ok_0;
            let experimental = table_bool(table, "enable_experimental", origin)->Ok_0;
            view.enabled[i] == ((rule_default_enabled(i as nat) || (experimental && rule_is_experimental(i))
                || enabled[i]) && !disabled[i])
        }),
{
}

} // verus!

verus! {

/// The part of a text before a byte offset, or the whole text when the offset
/// is not the start of a character or past the end.
pub open spec fn text_before(input: Seq<char>, byte: int) -> Seq<char> {
    if exists|k: int| 0 <= k <= input.len() && #[trigger] byte_offset(input, k) == byte {
        input.take(choose|k: int| 0 <= k <= input.len() && #[trigger] byte_offset(input, k) == byte)
    } else {
        input
    }
}

/// Where the last line of a text starts: just past its last line feed.
pub open spec fn last_line_start(s: Seq<char>) -> int
    decreases s.len(),
{
    if s.len() == 0 {
        0
    } else if s.last() == '\n' {
        s.len() as int
    } else {
        last_line_start(s.drop_last())
    }
}

/// The one-based line and column, in characters, of a byte offset in a text.
pub open spec fn position_of(input: Seq<char>, byte: int) -> (int, int) {
    let before = text_before(input, byte);
    (occurrences(before, '\n') + 1int, before.len() - last_line_start(before) + 1)
}

proof fn lemma_last_line_start(s: Seq<char>)
    ensures
        0 <= last_line_start(s) <= s.len(),
    decreases s.len(),
{
    if s.len() > 0 && s.last() != '\n' {
        lemma_last_line_start(s.drop_last());
    }
}

/// Where the last line of a text starts.
fn last_line_start_of(s: &[char]) -> (r: usize)
    ensures
        r == last_line_start(s@),
{
    let mut i = s.len();
    assert(s@.take(s@.len() as int) =~= s@);
    while i > 0 && s[i - 1] != '\n'
        invariant
            i <= s@.len(),
            last_line_start(s@) == last_line_start(s@.take(i as int)),
        decreases i,
    {
        assert(s@.take(i as int).drop_last() =~= s@.take(i - 1));
        i = i - 1;
    }
    proof {
        if i > 0 {
            assert(s@.take(i as int).last() == s@[i - 1]);
        } else {
            assert(s@.take(0) =~= Seq::<char>::empty());
        }
    }
    i
}

/// The one-based line and column of a byte offset in a text, as a parse error
/// is reported; an offset that does not start a character counts as the end.
pub fn line_column(input: &str, byte: usize) -> (r: (usize, usize))
    requires
        input@.len() < usize::MAX,
    ensures
        (r.0 as int, r.1 as int) == position_of(input@, byte as int),
{
    let chars = chars_of(input);
    let mut k: usize = 0;
    let mut offset: usize = 0;
    let mut state: u8 = 0;
    proof {
        lemma_byte_offset_zero(chars@);
    }
    while state == 0
        invariant
            chars@ == input@,
            k <= chars@.len(),
            offset == byte_offset(chars@, k as int),
            state <= 2,
            state == 0 ==> forall|m: int| 0 <= m < k ==> #[trigger] byte_offset(chars@, m) != byte,
            state == 1 ==> offset == byte,
            state == 2 ==> forall|m: int| 0 <= m <= chars@.len() ==> #[trigger] byte_offset(chars@, m) != byte,
        decreases chars@.len() - k + if state == 0 {
            1int
        } else {
            0int
        },
    {
        if offset == byte {
            state = 1;
        } else if k == chars.len() || offset > byte {
            proof {
                assert forall|m: int| 0 <= m <= chars@.len() implies #[trigger] byte_offset(chars@, m) != byte by {
                    if m > k {
                        lemma_byte_offset_rises(chars@, k as int, m);
                    }
                }
            }
            state = 2;
        } else {
            let width = char_len(chars[k]);
            proof {
                lemma_byte_offset_step(chars@, k as int);
            }
            if width > byte - offset {
                proof {
                    assert forall|m: int| 0 <= m <= chars@.len() implies #[trigger] byte_offset(chars@, m) != byte by {
                        if m > k + 1 {
                            lemma_byte_offset_rises(chars@, k + 1, m);
                        }
                    }
                }
                state = 2;
            } else {
                offset = offset + width;
                k = k + 1;
            }
        }
    }
    let end = if state == 1 {
        k
    } else {
        chars.len()
    };
    proof {
        if state == 1 {
            let m = choose|m: int| 0 <= m <= input@.len() && #[trigger] byte_offset(input@, m) == byte;
            if m < k {
                lemma_byte_offset_rises(chars@, m, k as int);
            } else if m > k {
                lemma_byte_offset_rises(chars@, k as int, m);
            }
            assert(text_before(input@, byte as int) == chars@.take(k as int));
        } else {
            assert(chars@.take(chars@.len() as int) =~= chars@);
        }
    }
    let before = slice_chars(&chars, 0, end);
    assert(before@ =~= chars@.take(end as int));
    let lines = occurrences_of(&before, '\n');
    proof {
        crate::text::lemma_occurrences_le(before@, '\n');
        lemma_last_line_start(before@);
    }
    let start = last_line_start_of(&before);
    (lines + 1, before.len() - start + 1)
}

} // verus!
