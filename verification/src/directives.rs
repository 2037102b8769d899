//! Inline `limae-disable` directives.
//!
//! A directive is an HTML comment alone on its line. Persistent disable and
//! enable directives update a running off-set; disable-next-line contributes a
//! one-line pending set. Every directive line masks all rules itself.

use vstd::prelude::*;

use crate::config::{every_rule, no_rules, rule_count, rule_named, RuleId, RuleMask};
use crate::text::{
    chars_of, contains_char, decimal, ends_with_lit, has_at, push_decimal, push_str,
    python_whitespace, skip_whitespace, slice_chars, split, split_chars, strip_prefix,
    strip_suffix, trim, trim_start, trimmed, vec_to_string,
};

verus! {

/// An inline directive named at least one unknown rule id.
#[derive(Debug, PartialEq, Eq)]
pub struct DirectiveError {
    line: usize,
    unknown: Vec<String>,
}

impl View for DirectiveError {
    type V = (nat, Seq<Seq<char>>);

    closed spec fn view(&self) -> (nat, Seq<Seq<char>>) {
        (self.line as nat, self.unknown@.map_values(|name: String| name@))
    }
}

impl DirectiveError {
    /// Return the one-based line number in the pipeline's current line view.
    #[must_use]
    pub fn line(&self) -> (r: usize)
        ensures
            r == self@.0,
    {
        self.line
    }

    /// Return unknown ids in their source order, including duplicates.
    #[must_use]
    pub fn unknown_ids(&self) -> (r: &[String])
        ensures
            r@.map_values(|name: String| name@) == self@.1,
    {
        self.unknown.as_slice()
    }

    /// The error as one line: where, which ids, and which ids are known.
    pub fn message(&self) -> (r: String)
        ensures
            r@ == decimal(self@.0) + ": unknown rule id(s) "@ + joined(self@.1, ", "@)
                + "; known ids are "@ + known_ids_text(),
    {
        let mut r = String::new();
        push_decimal(&mut r, self.line as u64);
        push_str(&mut r, ": unknown rule id(s) ");
        let ghost names = self@.1;
        let mut i: usize = 0;
        let ghost head = r@;
        assert(names.take(0) =~= Seq::<Seq<char>>::empty());
        while i < self.unknown.len()
            invariant
                i <= self.unknown@.len(),
                names == self.unknown@.map_values(|name: String| name@),
                r@ == head + joined(names.take(i as int), ", "@),
            decreases self.unknown@.len() - i,
        {
            proof {
                assert(names.take(i + 1).drop_last() =~= names.take(i as int));
            }
            if i > 0 {
                push_str(&mut r, ", ");
            }
            push_str(&mut r, self.unknown[i].as_str());
            i = i + 1;
            assert(r@ =~= head + joined(names.take(i as int), ", "@));
        }
        assert(names.take(names.len() as int) =~= names);
        push_str(&mut r, "; known ids are ");
        push_str(&mut r, known_ids());
        r
    }
}

/// Pieces of text joined by a separator.
pub open spec fn joined(pieces: Seq<Seq<char>>, separator: Seq<char>) -> Seq<char>
    decreases pieces.len(),
{
    if pieces.len() == 0 {
        Seq::empty()
    } else if pieces.len() == 1 {
        pieces[0]
    } else {
        joined(pieces.drop_last(), separator) + separator + pieces.last()
    }
}

/// Every known rule id, sorted and joined by commas.
pub open spec fn known_ids_text() -> Seq<char> {
    "en-tell-1, en-tell-2, en-tell-3, zh-tell-1, zh-tell-2, zh-tell-3, zh-tell-4, zh-tell-5, zh-typography-1, zh-typography-10, zh-typography-11, zh-typography-2, zh-typography-3, zh-typography-4, zh-typography-5, zh-typography-6, zh-typography-7, zh-typography-8, zh-typography-9, zh-word-1, zh-word-2"@
}

/// Every known rule id, sorted and joined by commas.
pub fn known_ids() -> (r: &'static str)
    ensures
        r@ == known_ids_text(),
{
    "en-tell-1, en-tell-2, en-tell-3, zh-tell-1, zh-tell-2, zh-tell-3, zh-tell-4, zh-tell-5, zh-typography-1, zh-typography-10, zh-typography-11, zh-typography-2, zh-typography-3, zh-typography-4, zh-typography-5, zh-typography-6, zh-typography-7, zh-typography-8, zh-typography-9, zh-word-1, zh-word-2"
}

/// Which directive a line is.
#[derive(Debug, Clone, Copy, PartialEq, Eq, Structural)]
pub enum DirectiveKind {
    DisableNextLine,
    Disable,
    Enable,
}

/// The directive a comment body names after `limae-`, and what follows it.
pub open spec fn directive_kind(body: Seq<char>) -> Option<(DirectiveKind, Seq<char>)> {
    if let Some(rest) = strip_prefix(body, "disable-next-line"@) {
        Some((DirectiveKind::DisableNextLine, rest))
    } else if let Some(rest) = strip_prefix(body, "disable"@) {
        Some((DirectiveKind::Disable, rest))
    } else if let Some(rest) = strip_prefix(body, "enable"@) {
        Some((DirectiveKind::Enable, rest))
    } else {
        None
    }
}

/// The directive a line is, if it is one: its kind, and the trimmed list of
/// ids it names (`None` when it names none).
pub open spec fn directive_of(line: Seq<char>) -> Option<(DirectiveKind, Option<Seq<char>>)> {
    match strip_prefix(trim(line), "<!--"@) {
        None => None,
        Some(after) => match strip_prefix(trim_start(after), "limae-"@) {
            None => None,
            Some(body) => match directive_kind(body) {
                None => None,
                Some((kind, rest)) => if rest == "-->"@ {
                    Some((kind, None))
                } else if rest.len() == 0 || !python_whitespace(rest[0]) {
                    None
                } else {
                    match strip_suffix(rest, "-->"@) {
                        None => None,
                        Some(listed) => if listed.contains('>') {
                            None
                        } else {
                            Some((kind, Some(trim(listed))))
                        },
                    }
                },
            },
        },
    }
}

/// The known and the unknown ids of a list, split on commas and whitespace.
pub open spec fn sort_ids(names: Seq<Seq<char>>) -> (Seq<bool>, Seq<Seq<char>>)
    decreases names.len(),
{
    if names.len() == 0 {
        (no_rules(), Seq::empty())
    } else {
        let (known, unknown) = sort_ids(names.drop_last());
        let name = names.last();
        if name.len() == 0 {
            (known, unknown)
        } else {
            match rule_named(name) {
                Some(rule) => (known.update(rule.index() as int, true), unknown),
                None => (known, unknown.push(name)),
            }
        }
    }
}

/// The rules a directive names: every rule when it names none, else the
/// listed ones, or the unknown ids when any listed id is unknown.
pub open spec fn listed_rules(listed: Option<Seq<char>>) -> Result<Seq<bool>, Seq<Seq<char>>> {
    match listed {
        None => Ok(every_rule()),
        Some(text) => if text.len() == 0 {
            Ok(every_rule())
        } else {
            let (known, unknown) = sort_ids(split(text, true));
            if unknown.len() == 0 {
                Ok(known)
            } else {
                Err(unknown)
            }
        },
    }
}

/// Whether an executable answer of [`parse`] is the directive of a line.
pub open spec fn parsed_as(
    r: Option<(DirectiveKind, Option<Vec<char>>)>,
    expected: Option<(DirectiveKind, Option<Seq<char>>)>,
) -> bool {
    match r {
        None => expected is None,
        Some((kind, None)) => expected == Some((kind, None::<Seq<char>>)),
        Some((kind, Some(listed))) => expected == Some((kind, Some(listed@))),
    }
}

fn directive_kind_at(source: &[char], at: usize) -> (r: Option<(DirectiveKind, usize)>)
    requires
        at <= source@.len(),
    ensures
        r matches Some((kind, rest)) ==> rest <= source@.len() && directive_kind(
            source@.skip(at as int),
        ) == Some((kind, source@.skip(rest as int))),
        r is None ==> directive_kind(source@.skip(at as int)) is None,
{
    let ghost body = source@.skip(at as int);
    let next = chars_of("disable-next-line");
    let disable = chars_of("disable");
    let enable = chars_of("enable");
    if next.len() <= source.len() - at && has_at(source, at, "disable-next-line") {
        assert(body.len() == source@.len() - at);
        assert(next@.len() <= body.len());
        assert(body.skip(next@.len() as int) =~= source@.skip(at + next@.len()));
        Some((DirectiveKind::DisableNextLine, at + next.len()))
    } else if disable.len() <= source.len() - at && has_at(source, at, "disable") {
        assert(body.len() == source@.len() - at);
        assert(disable@.len() <= body.len());
        assert(body.skip(disable@.len() as int) =~= source@.skip(at + disable@.len()));
        Some((DirectiveKind::Disable, at + disable.len()))
    } else if enable.len() <= source.len() - at && has_at(source, at, "enable") {
        assert(body.len() == source@.len() - at);
        assert(enable@.len() <= body.len());
        assert(body.skip(enable@.len() as int) =~= source@.skip(at + enable@.len()));
        Some((DirectiveKind::Enable, at + enable.len()))
    } else {
        None
    }
}

/// The directive a line is, if it is one.
pub fn parse(line: &str) -> (r: Option<(DirectiveKind, Option<Vec<char>>)>)
    ensures
        parsed_as(r, directive_of(line@)),
{
    let characters = chars_of(line);
    let source = trimmed(&characters);
    let open = chars_of("<!--");
    if !has_at(&source, 0, "<!--") {
        assert(source@.skip(0) =~= source@);
        return None;
    }
    assert(source@.skip(0) =~= source@);
    let after_open = open.len();
    proof {
        assert(strip_prefix(source@, "<!--"@) == Some(source@.skip(after_open as int)));
    }
    let start = skip_whitespace(&source, after_open);
    let prefix = chars_of("limae-");
    if !has_at(&source, start, "limae-") {
        return None;
    }
    let body_at = start + prefix.len();
    proof {
        assert(source@.skip(start as int).skip(prefix@.len() as int) =~= source@.skip(body_at as int));
    }
    let (kind, rest_at) = match directive_kind_at(&source, body_at) {
        None => return None,
        Some(found) => found,
    };
    let rest = slice_chars(&source, rest_at, source.len());
    assert(rest@ =~= source@.skip(rest_at as int));
    let close = chars_of("-->");
    if rest.len() == close.len() && has_at(&rest, 0, "-->") {
        assert(rest@.skip(0) =~= rest@);
        assert(rest@.take(close@.len() as int) =~= rest@);
        return Some((kind, None));
    }
    assert(rest@ != "-->"@) by {
        assert(rest@.skip(0) =~= rest@);
        if rest@ == "-->"@ {
            assert(rest@.take(close@.len() as int) =~= rest@);
        }
    }
    if rest.len() == 0 || !crate::text::is_python_whitespace(rest[0]) {
        return None;
    }
    if !ends_with_lit(&rest, "-->") {
        return None;
    }
    let listed = slice_chars(&rest, 0, rest.len() - close.len());
    assert(listed@ =~= rest@.take(rest@.len() - close@.len()));
    if contains_char(&listed, '>') {
        return None;
    }
    Some((kind, Some(trimmed(&listed))))
}

/// Whether an executable answer of [`ids`] is the rules a directive names.
pub open spec fn ids_as(r: Result<RuleMask, Vec<String>>, expected: Result<Seq<bool>, Seq<Seq<char>>>) -> bool {
    match r {
        Ok(mask) => expected == Ok::<Seq<bool>, Seq<Seq<char>>>(mask@),
        Err(unknown) => expected == Err::<Seq<bool>, Seq<Seq<char>>>(
            unknown@.map_values(|name: String| name@),
        ),
    }
}

/// The rules a directive names, or the unknown ids it names in their order.
pub fn ids(listed: &Option<Vec<char>>) -> (r: Result<RuleMask, Vec<String>>)
    ensures
        ids_as(r, listed_rules(match listed {
            None => None,
            Some(text) => Some(text@),
        })),
{
    let text = match listed {
        None => return Ok(RuleMask::everything()),
        Some(text) => text,
    };
    if text.len() == 0 {
        return Ok(RuleMask::everything());
    }
    let pieces = split_chars(text, true);
    let ghost names = split(text@, true);
    let mut known = RuleMask::new();
    let mut unknown: Vec<String> = Vec::new();
    let mut i: usize = 0;
    assert(names.take(0) =~= Seq::<Seq<char>>::empty());
    while i < pieces.len()
        invariant
            i <= pieces@.len(),
            names == split(text@, true),
            pieces@.len() == names.len(),
            forall|k: int| 0 <= k < pieces@.len() ==> #[trigger] pieces@[k]@ == names[k],
            sort_ids(names.take(i as int)) == (known@, unknown@.map_values(|name: String| name@)),
        decreases pieces@.len() - i,
    {
        proof {
            assert(names.take(i + 1).drop_last() =~= names.take(i as int));
            assert(names.take(i + 1).last() == names[i as int]);
        }
        if pieces[i].len() > 0 {
            let name = vec_to_string(&pieces[i]);
            match RuleId::from_name(name.as_str()) {
                Some(rule) => known.insert(rule),
                None => {
                    let ghost before = unknown@;
                    unknown.push(name);
                    assert(unknown@.map_values(|name: String| name@) =~= before.map_values(
                        |name: String| name@,
                    ).push(names[i as int]));
                },
            }
        }
        i = i + 1;
    }
    assert(names.take(names.len() as int) =~= names);
    if unknown.len() == 0 {
        Ok(known)
    } else {
        Err(unknown)
    }
}


/// The rules in either set.
pub open spec fn union(a: Seq<bool>, b: Seq<bool>) -> Seq<bool> {
    Seq::new(rule_count(), |i: int| a[i] || b[i])
}

/// The rules in the first set and not the second.
pub open spec fn minus(a: Seq<bool>, b: Seq<bool>) -> Seq<bool> {
    Seq::new(rule_count(), |i: int| a[i] && !b[i])
}

/// Where a scan of the lines stands: each line's mask so far, the rules a
/// persistent directive has switched off, and the one-line pending set.
pub struct Scan {
    pub masks: Seq<Seq<bool>>,
    pub off: Seq<bool>,
    pub pending: Seq<bool>,
}

/// The scan of one more line.
pub open spec fn scan_line(state: Scan, line: Seq<char>, verbatim: bool, number: nat) -> Result<Scan, (nat, Seq<Seq<char>>)> {
    if !verbatim && directive_of(line) is Some {
        let (kind, listed) = directive_of(line)->Some_0;
        match listed_rules(listed) {
            Err(unknown) => Err((number, unknown)),
            Ok(ids) => Ok(Scan {
                masks: state.masks.push(every_rule()),
                off: match kind {
                    DirectiveKind::Disable => union(state.off, ids),
                    DirectiveKind::Enable => minus(state.off, ids),
                    DirectiveKind::DisableNextLine => state.off,
                },
                pending: match kind {
                    DirectiveKind::DisableNextLine => ids,
                    _ => no_rules(),
                },
            }),
        }
    } else {
        Ok(Scan { masks: state.masks.push(union(state.off, state.pending)), off: state.off, pending: no_rules() })
    }
}

/// The scan of a sequence of lines, or the first directive naming an unknown
/// rule: its one-based line number and the unknown ids in order.
pub open spec fn scan(lines: Seq<Seq<char>>, verbatim: Seq<bool>) -> Result<Scan, (nat, Seq<Seq<char>>)>
    decreases lines.len(),
{
    if lines.len() == 0 {
        Ok(Scan { masks: Seq::empty(), off: no_rules(), pending: no_rules() })
    } else {
        match scan(lines.drop_last(), verbatim.drop_last()) {
            Err(error) => Err(error),
            Ok(state) => scan_line(state, lines.last(), verbatim.last(), lines.len()),
        }
    }
}

proof fn lemma_scan_error(lines: Seq<Seq<char>>, verbatim: Seq<bool>, k: int)
    requires
        0 <= k <= lines.len(),
        lines.len() == verbatim.len(),
        scan(lines.take(k), verbatim.take(k)) is Err,
    ensures
        scan(lines, verbatim) == scan(lines.take(k), verbatim.take(k)),
    decreases lines.len(),
{
    if k < lines.len() {
        assert(lines.drop_last().take(k) =~= lines.take(k));
        assert(verbatim.drop_last().take(k) =~= verbatim.take(k));
        lemma_scan_error(lines.drop_last(), verbatim.drop_last(), k);
    } else {
        assert(lines.take(k) =~= lines);
        assert(verbatim.take(k) =~= verbatim);
    }
}

/// The masks of every line, or the directive error.
pub open spec fn masks_of(lines: Seq<Seq<char>>, verbatim: Seq<bool>) -> Result<Seq<Seq<bool>>, (nat, Seq<Seq<char>>)> {
    match scan(lines, verbatim) {
        Ok(state) => Ok(state.masks),
        Err(error) => Err(error),
    }
}

/// The lines' characters.
pub open spec fn lines_view(lines: Seq<&str>) -> Seq<Seq<char>> {
    lines.map_values(|line: &str| line@)
}

/// Return the rules masked on each line, by the directives among `lines`;
/// `verbatim` marks the lines (fenced code) where no comment is a directive.
pub fn rule_masks(lines: &[&str], verbatim: &[bool]) -> (r: Result<Vec<RuleMask>, DirectiveError>)
    requires
        lines@.len() == verbatim@.len(),
    ensures
        match r {
            Ok(masks) => masks_of(lines_view(lines@), verbatim@) == Ok::<Seq<Seq<bool>>, (nat, Seq<Seq<char>>)>(
                masks@.map_values(|mask: RuleMask| mask@),
            ),
            Err(error) => masks_of(lines_view(lines@), verbatim@) == Err::<Seq<Seq<bool>>, (nat, Seq<Seq<char>>)>(error@),
        },
{
    let ghost all = lines_view(lines@);
    let mut masks: Vec<RuleMask> = Vec::new();
    let mut off = RuleMask::new();
    let mut pending = RuleMask::new();
    let mut i: usize = 0;
    assert(all.take(0) =~= Seq::<Seq<char>>::empty());
    assert(verbatim@.take(0) =~= Seq::<bool>::empty());
    assert(masks@.map_values(|mask: RuleMask| mask@) =~= Seq::<Seq<bool>>::empty());
    while i < lines.len()
        invariant
            i <= lines@.len(),
            lines@.len() == verbatim@.len(),
            all == lines_view(lines@),
            scan(all.take(i as int), verbatim@.take(i as int)) == Ok::<Scan, (nat, Seq<Seq<char>>)>(Scan {
                masks: masks@.map_values(|mask: RuleMask| mask@),
                off: off@,
                pending: pending@,
            }),
        decreases lines@.len() - i,
    {
        proof {
            assert(all.take(i + 1).drop_last() =~= all.take(i as int));
            assert(verbatim@.take(i + 1).drop_last() =~= verbatim@.take(i as int));
            assert(all.take(i + 1).last() == lines@[i as int]@);
            assert(verbatim@.take(i + 1).last() == verbatim@[i as int]);
        }
        let ghost before = masks@.map_values(|mask: RuleMask| mask@);
        let directive = if verbatim[i] {
            None
        } else {
            parse(lines[i])
        };
        match directive {
            Some((kind, listed)) => {
                let found = ids(&listed);
                match found {
                    Err(unknown) => {
                        let error = DirectiveError { line: i + 1, unknown };
                        proof {
                            assert(error@ == ((i + 1) as nat, unknown@.map_values(|name: String| name@)));
                            lemma_scan_error(all, verbatim@, i + 1);
                        }
                        return Err(error);
                    },
                    Ok(rules) => {
                        match kind {
                            DirectiveKind::DisableNextLine => {
                                pending = rules;
                            },
                            DirectiveKind::Disable => {
                                off = off.union(&rules);
                                pending = RuleMask::new();
                            },
                            DirectiveKind::Enable => {
                                off = off.minus(&rules);
                                pending = RuleMask::new();
                            },
                        }
                        masks.push(RuleMask::everything());
                    },
                }
            },
            None => {
                let mask = off.union(&pending);
                masks.push(mask);
                pending = RuleMask::new();
            },
        }
        assert(masks@.map_values(|mask: RuleMask| mask@) =~= before.push(masks@.last()@));
        i = i + 1;
    }
    assert(all.take(lines@.len() as int) =~= all);
    assert(verbatim@.take(lines@.len() as int) =~= verbatim@);
    Ok(masks)
}

/// A scan of more lines keeps the masks of the lines before them.
proof fn lemma_scan_prefix(lines: Seq<Seq<char>>, verbatim: Seq<bool>, k: int)
    requires
        lines.len() == verbatim.len(),
        0 <= k <= lines.len(),
        scan(lines, verbatim) is Ok,
    ensures
        scan(lines.take(k), verbatim.take(k)) is Ok,
        scan(lines.take(k), verbatim.take(k))->Ok_0.masks == scan(lines, verbatim)->Ok_0.masks.take(k),
        scan(lines, verbatim)->Ok_0.masks.len() == lines.len(),
    decreases lines.len(),
{
    if lines.len() > 0 {
        let (front, flags) = (lines.drop_last(), verbatim.drop_last());
        if scan(front, flags) is Err {
            assert(scan(lines, verbatim) is Err);
        }
        if k < lines.len() {
            lemma_scan_prefix(front, flags, k);
            assert(front.take(k) =~= lines.take(k));
            assert(flags.take(k) =~= verbatim.take(k));
        } else {
            lemma_scan_prefix(front, flags, front.len() as int);
            assert(lines.take(k) =~= lines);
            assert(verbatim.take(k) =~= verbatim);
        }
        lemma_scan_prefix(front, flags, front.len() as int);
        assert(scan(lines, verbatim)->Ok_0.masks.take(k) =~= if k < lines.len() {
            scan(front, flags)->Ok_0.masks.take(k)
        } else {
            scan(lines, verbatim)->Ok_0.masks
        });
    } else {
        assert(lines.take(k) =~= lines);
        assert(verbatim.take(k) =~= verbatim);
        assert(scan(lines, verbatim)->Ok_0.masks.take(k) =~= scan(lines, verbatim)->Ok_0.masks);
    }
}

/// Every directive line masks all rules itself, and the masks run one to a
/// line.
pub proof fn law_directive_lines_mask_everything(lines: Seq<Seq<char>>, verbatim: Seq<bool>, i: int)
    requires
        lines.len() == verbatim.len(),
        0 <= i < lines.len(),
        !verbatim[i],
        directive_of(lines[i]) is Some,
        masks_of(lines, verbatim) is Ok,
    ensures
        masks_of(lines, verbatim)->Ok_0.len() == lines.len(),
        masks_of(lines, verbatim)->Ok_0[i] == every_rule(),
{
    lemma_scan_prefix(lines, verbatim, i + 1);
    let (front, flags) = (lines.take(i + 1), verbatim.take(i + 1));
    assert(front.drop_last() =~= lines.take(i));
    assert(flags.drop_last() =~= verbatim.take(i));
    assert(front.last() == lines[i]);
    assert(flags.last() == verbatim[i]);
    assert(scan(front, flags)->Ok_0.masks.last() == every_rule());
    assert(scan(front, flags)->Ok_0.masks[i] == scan(lines, verbatim)->Ok_0.masks[i]);
}

/// A disable-next-line directive masks its rules on the line after it, when
/// that line is not a directive itself.
pub proof fn law_next_line_is_masked(lines: Seq<Seq<char>>, verbatim: Seq<bool>, i: int)
    requires
        lines.len() == verbatim.len(),
        0 <= i,
        i + 1 < lines.len(),
        !verbatim[i],
        directive_of(lines[i]) matches Some((kind, _)) && kind is DisableNextLine,
        verbatim[i + 1] || directive_of(lines[i + 1]) is None,
        masks_of(lines, verbatim) is Ok,
    ensures
        forall|r: int|
            0 <= r < rule_count() && (#[trigger] listed_rules(directive_of(lines[i])->Some_0.1)->Ok_0[r]) ==> masks_of(
                lines,
                verbatim,
            )->Ok_0[i + 1][r],
{
    lemma_scan_prefix(lines, verbatim, i + 2);
    lemma_scan_prefix(lines, verbatim, i + 1);
    let (two, flags2) = (lines.take(i + 2), verbatim.take(i + 2));
    let (one, flags1) = (lines.take(i + 1), verbatim.take(i + 1));
    assert(two.drop_last() =~= one);
    assert(flags2.drop_last() =~= flags1);
    assert(one.drop_last() =~= lines.take(i));
    assert(flags1.drop_last() =~= verbatim.take(i));
    assert(one.last() == lines[i] && flags1.last() == verbatim[i]);
    assert(two.last() == lines[i + 1] && flags2.last() == verbatim[i + 1]);
    let after = scan(one, flags1)->Ok_0;
    assert(after.pending == listed_rules(directive_of(lines[i])->Some_0.1)->Ok_0);
    assert(scan(two, flags2)->Ok_0.masks.last() == union(after.off, after.pending));
    assert(scan(two, flags2)->Ok_0.masks[i + 1] == scan(lines, verbatim)->Ok_0.masks[i + 1]);
}

/// A persistent enable lifts only the rules it lists. After `limae-disable`
/// with rules `D` and, on the very next line, `limae-enable` with rules `E`,
/// the next line that is no directive has every rule of `D` that `E` does not
/// list masked, and no rule of `E`; from the start of the text its mask is
/// exactly `D` less `E`.
pub proof fn law_enable_lifts_only_its_rules(lines: Seq<Seq<char>>, verbatim: Seq<bool>, i: int)
    requires
        lines.len() == verbatim.len(),
        0 <= i,
        i + 2 < lines.len(),
        !verbatim[i],
        !verbatim[i + 1],
        directive_of(lines[i]) matches Some((kind, _)) && kind is Disable,
        directive_of(lines[i + 1]) matches Some((kind, _)) && kind is Enable,
        verbatim[i + 2] || directive_of(lines[i + 2]) is None,
        masks_of(lines, verbatim) is Ok,
    ensures
        listed_rules(directive_of(lines[i])->Some_0.1) is Ok,
        listed_rules(directive_of(lines[i + 1])->Some_0.1) is Ok,
        ({
            let disabled = listed_rules(directive_of(lines[i])->Some_0.1)->Ok_0;
            let enabled = listed_rules(directive_of(lines[i + 1])->Some_0.1)->Ok_0;
            let mask = masks_of(lines, verbatim)->Ok_0[i + 2];
            &&& forall|r: int| 0 <= r < rule_count() && disabled[r] && !enabled[r] ==> #[trigger] mask[r]
            &&& forall|r: int| 0 <= r < rule_count() && enabled[r] ==> !#[trigger] mask[r]
            &&& i == 0 ==> forall|r: int| 0 <= r < rule_count() ==> #[trigger] mask[r] == (disabled[r] && !enabled[r])
        }),
{
    lemma_scan_prefix(lines, verbatim, i + 3);
    lemma_scan_prefix(lines, verbatim, i + 2);
    lemma_scan_prefix(lines, verbatim, i + 1);
    lemma_scan_prefix(lines, verbatim, i);
    let (three, flags3) = (lines.take(i + 3), verbatim.take(i + 3));
    let (two, flags2) = (lines.take(i + 2), verbatim.take(i + 2));
    let (one, flags1) = (lines.take(i + 1), verbatim.take(i + 1));
    let (zero, flags0) = (lines.take(i), verbatim.take(i));
    assert(three.drop_last() =~= two);
    assert(flags3.drop_last() =~= flags2);
    assert(two.drop_last() =~= one);
    assert(flags2.drop_last() =~= flags1);
    assert(one.drop_last() =~= zero);
    assert(flags1.drop_last() =~= flags0);
    assert(one.last() == lines[i] && flags1.last() == verbatim[i]);
    assert(two.last() == lines[i + 1] && flags2.last() == verbatim[i + 1]);
    assert(three.last() == lines[i + 2] && flags3.last() == verbatim[i + 2]);
    let before = scan(zero, flags0)->Ok_0;
    let after_disable = scan(one, flags1)->Ok_0;
    let after_enable = scan(two, flags2)->Ok_0;
    let disabled = listed_rules(directive_of(lines[i])->Some_0.1)->Ok_0;
    let enabled = listed_rules(directive_of(lines[i + 1])->Some_0.1)->Ok_0;
    assert(after_disable.off == union(before.off, disabled));
    assert(after_enable.off == minus(after_disable.off, enabled));
    assert(after_enable.pending == no_rules());
    assert(scan(three, flags3)->Ok_0.masks.last() == union(after_enable.off, after_enable.pending));
    assert(scan(three, flags3)->Ok_0.masks[i + 2] == scan(lines, verbatim)->Ok_0.masks[i + 2]);
    if i == 0 {
        assert(zero =~= Seq::<Seq<char>>::empty());
        assert(flags0 =~= Seq::<bool>::empty());
        assert(before.off == no_rules());
    }
}

} // verus!
