//! What the display hook did, written down: A/B trials and single runs.
//!
//! On a sampled turn the hook runs two models over the same assistant message
//! and shows both, labelled A and B and nothing else: the screen stays blind.
//! Which model wrote which goes to the ledger, under the session's own state
//! directory. This module decides the layout of both: the block the reader
//! sees ([`render`]), the ledger and pending entries ([`trial_entries`]), the
//! record of a turn that was not sampled ([`run_entry`]), and which two
//! candidates a trial pits against each other ([`pair`]).

use vstd::prelude::*;

use crate::hook::json::{json_quoted, quote};
use crate::text::{push_char, push_str};

verus! {

/// Where the trials of one session are kept, one file per code name.
pub const LEDGER_DIRECTORY: &'static str = "ab";

/// Where a turn that was not sampled is written down.
pub const RUN_DIRECTORY: &'static str = "polish";

/// What the `Stop` hook reads to find out what this turn ran.
pub const PENDING_FILENAME: &'static str = "pending.json";

/// The two columns, in the order they are shown.
pub const LABELS: [&'static str; 2] = ["A", "B"];

/// Two-character Chinese nouns, common enough that speech-to-text gets them
/// right and distinct enough from each other that a mistyped transcription
/// still names one round only.
pub const CODE_NAMES: [&'static str; 48] = [
    "灯塔", "山谷", "河流", "森林", "海鸥", "松树", "石桥", "麦田",
    "竹林", "晚霞", "清风", "溪水", "雪山", "月光", "春雨", "沙洲",
    "港湾", "草原", "湖泊", "峡谷", "岛屿", "稻田", "果园", "篝火",
    "铜镜", "陶罐", "木船", "风筝", "灯笼", "钟楼", "石阶", "屋檐",
    "屏风", "门廊", "砚台", "竹简", "罗盘", "铁锚", "帆船", "号角",
    "琥珀", "玛瑙", "青苔", "榆树", "白杨", "芦苇", "荷塘", "银杏",
];

/// One engine and model to try.
#[derive(Clone, Debug, Eq, PartialEq)]
pub struct Candidate {
    /// A preset name.
    pub engine: String,
    /// The model to run under that preset.
    pub model: String,
}

impl Candidate {
    /// The same candidate, as a new value.
    pub fn copied(&self) -> (r: Candidate)
        ensures
            r == *self,
    {
        Candidate { engine: self.engine.clone(), model: self.model.clone() }
    }
}

/// One sampled turn's A/B trial.
#[derive(Clone, Debug, Eq, PartialEq)]
pub struct Trial {
    /// The round's code name, unique within the session.
    pub code: String,
    /// The candidate shown as A.
    pub a: Candidate,
    /// The candidate shown as B.
    pub b: Candidate,
}

/// Eight bytes from the system's random source, as a little-endian number
/// (`getrandom::fill`), or `None` when the source will not answer. Nothing is
/// stated of which number comes back.
#[verifier::external_body]
fn random_word() -> (r: Option<u64>) {
    let mut bytes = [0u8; 8];
    match getrandom::fill(&mut bytes) {
        Ok(()) => Some(u64::from_le_bytes(bytes)),
        Err(_) => None,
    }
}

/// The position a random word picks among `count` things: the word modulo
/// the count.
pub open spec fn picked(word: u64, count: int) -> int {
    (word % (count as u64)) as int
}

/// The position a random word picks among `count` things.
pub fn position_from(word: u64, count: usize) -> (r: usize)
    requires
        count > 0,
    ensures
        r == picked(word, count as int),
        r < count,
{
    (word % (count as u64)) as usize
}

/// Return a uniform index into a list of `count` things, or `None` when there
/// is nothing to index or the random source will not answer.
pub fn index(count: usize) -> (r: Option<usize>)
    ensures
        count == 0 ==> r is None,
        r matches Some(i) ==> i < count && exists|word: u64| i == #[trigger] picked(word, count as int),
{
    if count == 0 {
        return None;
    }
    match random_word() {
        Some(word) => Some(position_from(word, count)),
        None => None,
    }
}

/// The two positions two random words draw among `count`: the first word
/// picks among all of them, the second among the rest, stepping over the
/// first so that the two differ.
pub open spec fn drawn_positions(first: u64, second: u64, count: int) -> (int, int) {
    let a = picked(first, count);
    let b = picked(second, count - 1);
    (a, if b >= a {
        b + 1
    } else {
        b
    })
}

/// Two different positions among `count`, drawn by two random words.
pub fn positions_from(first: u64, second: u64, count: usize) -> (r: (usize, usize))
    requires
        count >= 2,
    ensures
        (r.0 as int, r.1 as int) == drawn_positions(first, second, count as int),
        r.0 < count && r.1 < count && r.0 != r.1,
{
    let a = position_from(first, count);
    let b = position_from(second, count - 1);
    let b = if b >= a {
        b + 1
    } else {
        b
    };
    (a, b)
}

/// Return two different positions among `count`, or `None` for fewer than two
/// or when the random source will not answer.
pub fn pair_positions(count: usize) -> (r: Option<(usize, usize)>)
    ensures
        count < 2 ==> r is None,
        r matches Some((a, b)) ==> a < count && b < count && a != b && exists|first: u64, second: u64|
            #[trigger] drawn_positions(first, second, count as int) == (a as int, b as int),
{
    if count < 2 {
        return None;
    }
    let first = match random_word() {
        Some(word) => word,
        None => return None,
    };
    let second = match random_word() {
        Some(word) => word,
        None => return None,
    };
    Some(positions_from(first, second, count))
}

/// The two candidates two random words draw: those at [`drawn_positions`].
pub open spec fn drawn_pair(candidates: Seq<Candidate>, first: u64, second: u64) -> (Candidate, Candidate) {
    let positions = drawn_positions(first, second, candidates.len() as int);
    (candidates[positions.0], candidates[positions.1])
}

/// Return two different candidates, or `None` for a pool too small to draw two
/// from or when the random source will not answer.
pub fn pair(candidates: &[Candidate]) -> (r: Option<(Candidate, Candidate)>)
    ensures
        candidates@.len() < 2 ==> r is None,
        r matches Some((a, b)) ==> exists|i: int, j: int|
            0 <= i < candidates@.len() && 0 <= j < candidates@.len() && i != j && a == #[trigger] candidates@[i]
                && b == #[trigger] candidates@[j],
        r matches Some(two) ==> exists|first: u64, second: u64| two == #[trigger] drawn_pair(candidates@, first, second),
{
    match pair_positions(candidates.len()) {
        Some((first, second)) => {
            let a = candidates[first].copied();
            let b = candidates[second].copied();
            assert(a == candidates@[first as int] && b == candidates@[second as int]);
            proof {
                let (w1, w2) = choose|w1: u64, w2: u64|
                    #[trigger] drawn_positions(w1, w2, candidates@.len() as int) == (first as int, second as int);
                assert((a, b) == drawn_pair(candidates@, w1, w2));
            }
            Some((a, b))
        },
        None => None,
    }
}

/// Whether `name` is one of `used`.
fn is_used(used: &[String], name: &str) -> (r: bool)
    ensures
        r == exists|k: int| 0 <= k < used@.len() && (#[trigger] used@[k])@ == name@,
{
    let mut k: usize = 0;
    while k < used.len()
        invariant
            k <= used@.len(),
            forall|m: int| 0 <= m < k ==> (#[trigger] used@[m])@ != name@,
        decreases used@.len() - k,
    {
        if crate::text::spells(used[k].as_str(), name) {
            return true;
        }
        k = k + 1;
    }
    false
}

/// Whether a session has used a code name.
pub open spec fn name_used(used: Seq<String>, name: Seq<char>) -> bool {
    exists|m: int| 0 <= m < used.len() && (#[trigger] used[m])@ == name
}

/// The first `n` code names the session has not used, in the order of
/// [`CODE_NAMES`].
pub open spec fn unused_names(used: Seq<String>, n: int) -> Seq<Seq<char>>
    decreases n,
{
    if n <= 0 || n > 48 {
        Seq::empty()
    } else {
        unused_names(used, n - 1) + if name_used(used, CODE_NAMES[n - 1]@) {
            Seq::empty()
        } else {
            seq![CODE_NAMES[n - 1]@]
        }
    }
}

/// Names as their characters.
pub open spec fn names_of(names: Seq<&'static str>) -> Seq<Seq<char>> {
    names.map_values(|name: &'static str| name@)
}

/// The code names a session has not used yet, in the order of [`CODE_NAMES`].
pub fn free_names(used: &[String]) -> (r: Vec<&'static str>)
    ensures
        forall|k: int| 0 <= k < r@.len() ==> !exists|m: int| 0 <= m < used@.len() && (#[trigger] used@[m])@ == (#[trigger] r@[k])@,
        forall|k: int| 0 <= k < r@.len() ==> exists|n: int| 0 <= n < 48 && (#[trigger] r@[k]) == CODE_NAMES[n],
        forall|n: int|
            #![trigger CODE_NAMES[n]]
            0 <= n < 48 && !(exists|m: int| 0 <= m < used@.len() && (#[trigger] used@[m])@ == CODE_NAMES[n]@) ==> exists|k: int|
                0 <= k < r@.len() && #[trigger] r@[k] == CODE_NAMES[n],
        names_of(r@) == unused_names(used@, 48),
{
    let mut r: Vec<&'static str> = Vec::new();
    assert(names_of(r@) =~= unused_names(used@, 0));
    let mut n: usize = 0;
    while n < 48
        invariant
            n <= 48,
            forall|k: int| 0 <= k < r@.len() ==> !exists|m: int| 0 <= m < used@.len() && (#[trigger] used@[m])@ == (#[trigger] r@[k])@,
            forall|k: int| 0 <= k < r@.len() ==> exists|p: int| 0 <= p < n && (#[trigger] r@[k]) == CODE_NAMES[p],
            forall|p: int|
                #![trigger CODE_NAMES[p]]
                0 <= p < n && !(exists|m: int| 0 <= m < used@.len() && (#[trigger] used@[m])@ == CODE_NAMES[p]@) ==> exists|k: int|
                    0 <= k < r@.len() && #[trigger] r@[k] == CODE_NAMES[p],
            names_of(r@) == unused_names(used@, n as int),
        decreases 48 - n,
    {
        let name = CODE_NAMES[n];
        let ghost start = r@;
        if !is_used(used, name) {
            let ghost before = r@;
            r.push(name);
            proof {
                assert(r@[before.len() as int] == CODE_NAMES[n as int]);
                assert forall|k: int| 0 <= k < r@.len() implies exists|p: int| 0 <= p < n + 1 && (#[trigger] r@[k]) == CODE_NAMES[p] by {
                    if k < before.len() {
                        assert(r@[k] == before[k]);
                    }
                }
                assert forall|p: int|
                    #![trigger CODE_NAMES[p]]
                    0 <= p < n + 1 && !(exists|m: int| 0 <= m < used@.len() && (#[trigger] used@[m])@ == CODE_NAMES[p]@) implies exists|k: int|
                        0 <= k < r@.len() && #[trigger] r@[k] == CODE_NAMES[p] by {
                    if p < n {
                        let k = choose|k: int| 0 <= k < before.len() && #[trigger] before[k] == CODE_NAMES[p];
                        assert(r@[k] == before[k]);
                    } else {
                        assert(r@[before.len() as int] == CODE_NAMES[p]);
                    }
                }
            }
        }
        proof {
            if name_used(used@, CODE_NAMES[n as int]@) {
                assert(r@ == start);
                assert(names_of(r@) =~= unused_names(used@, n + 1));
            } else {
                assert(r@ == start.push(name));
                assert(names_of(r@) =~= unused_names(used@, n + 1));
            }
        }
        n = n + 1;
    }
    r
}

/// The trial three random words draw: the two candidates of [`drawn_pair`],
/// and the unused code name the third word picks.
pub open spec fn drawn_trial(candidates: Seq<Candidate>, used: Seq<String>, first: u64, second: u64, word: u64) -> (
    Candidate,
    Candidate,
    Seq<char>,
) {
    let two = drawn_pair(candidates, first, second);
    let free = unused_names(used, 48);
    (two.0, two.1, free[picked(word, free.len() as int)])
}

/// The trial three random words draw, from the candidates installed and the
/// code names the session has used: one whenever at least two candidates are
/// installed and a code name is free, and then the one [`drawn_trial`] says.
pub fn trial_from(candidates: &[Candidate], used: &[String], first: u64, second: u64, word: u64) -> (r: Option<
    Trial,
>)
    ensures
        (r is Some) == (candidates@.len() >= 2 && unused_names(used@, 48).len() > 0),
        r matches Some(trial) ==> {
            &&& (trial.a, trial.b, trial.code@) == drawn_trial(candidates@, used@, first, second, word)
            &&& exists|i: int, j: int|
                0 <= i < candidates@.len() && 0 <= j < candidates@.len() && i != j && trial.a == #[trigger] candidates@[i]
                    && trial.b == #[trigger] candidates@[j]
            &&& exists|n: int| 0 <= n < 48 && trial.code@ == #[trigger] CODE_NAMES[n]@
            &&& !exists|m: int| 0 <= m < used@.len() && (#[trigger] used@[m])@ == trial.code@
        },
{
    if candidates.len() < 2 {
        return None;
    }
    let free = free_names(used);
    if free.len() == 0 {
        return None;
    }
    let (i, j) = positions_from(first, second, candidates.len());
    let a = candidates[i].copied();
    let b = candidates[j].copied();
    let chosen = position_from(word, free.len());
    let code = free[chosen].to_owned();
    proof {
        assert(code@ == free@[chosen as int]@);
        assert(names_of(free@)[chosen as int] == free@[chosen as int]@);
        assert((a, b) == drawn_pair(candidates@, first, second));
        assert(a == candidates@[i as int] && b == candidates@[j as int]);
        let n = choose|n: int| 0 <= n < 48 && (#[trigger] free@[chosen as int]) == CODE_NAMES[n];
        assert(code@ == CODE_NAMES[n]@);
    }
    Some(Trial { code, a, b })
}

/// Decide what trial a sampled turn runs, from the candidates installed and
/// the code names the session has used: `None` when fewer than two candidates
/// are installed, every code name is used, or the random source will not
/// answer. Otherwise three random words draw the trial, as [`trial_from`]
/// says; which words the source gives is not known here.
pub fn draw_from(candidates: &[Candidate], used: &[String]) -> (r: Option<Trial>)
    ensures
        candidates@.len() < 2 ==> r is None,
        unused_names(used@, 48).len() == 0 ==> r is None,
        r matches Some(trial) ==> {
            &&& exists|i: int, j: int|
                0 <= i < candidates@.len() && 0 <= j < candidates@.len() && i != j && trial.a == #[trigger] candidates@[i]
                    && trial.b == #[trigger] candidates@[j]
            &&& exists|n: int| 0 <= n < 48 && trial.code@ == #[trigger] CODE_NAMES[n]@
            &&& !exists|m: int| 0 <= m < used@.len() && (#[trigger] used@[m])@ == trial.code@
            &&& exists|first: u64, second: u64, word: u64|
                (trial.a, trial.b, trial.code@) == #[trigger] drawn_trial(candidates@, used@, first, second, word)
        },
{
    if candidates.len() < 2 {
        return None;
    }
    let free = free_names(used);
    if free.len() == 0 {
        return None;
    }
    let first = match random_word() {
        Some(word) => word,
        None => return None,
    };
    let second = match random_word() {
        Some(word) => word,
        None => return None,
    };
    let word = match random_word() {
        Some(word) => word,
        None => return None,
    };
    trial_from(candidates, used, first, second, word)
}

/// What the block says for one trial: the code name, then the two rewrites
/// labelled A and B, A first.
pub open spec fn trial_block(code: Seq<char>, a: Seq<char>, b: Seq<char>) -> Seq<char> {
    "[A/B "@ + code + "] 原文如上，以下是两个候选：\n\n"@ + "── "@ + "A"@ + " ──\n"@ + a + "\n\n"@ + "── "@ + "B"@
        + " ──\n"@ + b + "\n"@
}

/// Lay out one trial for the screen. The original is not repeated: it is the
/// text that has just streamed, immediately above. Neither model is named.
#[must_use]
pub fn render(trial: &Trial, shown: (&str, &str)) -> (r: String)
    ensures
        r@ == trial_block(trial.code@, shown.0@, shown.1@),
{
    let mut r = String::new();
    push_str(&mut r, "[A/B ");
    push_str(&mut r, trial.code.as_str());
    push_str(&mut r, "] 原文如上，以下是两个候选：\n\n");
    push_str(&mut r, "── ");
    push_str(&mut r, LABELS[0]);
    push_str(&mut r, " ──\n");
    push_str(&mut r, shown.0);
    push_str(&mut r, "\n\n");
    push_str(&mut r, "── ");
    push_str(&mut r, LABELS[1]);
    push_str(&mut r, " ──\n");
    push_str(&mut r, shown.1);
    push_str(&mut r, "\n");
    proof {
        assert(LABELS[0]@ == "A"@ && LABELS[1]@ == "B"@);
    }
    assert(r@ =~= trial_block(trial.code@, shown.0@, shown.1@));
    r
}

/// `n` spaces.
pub open spec fn spaces(n: nat) -> Seq<char> {
    Seq::new(n, |i: int| ' ')
}

/// Pieces joined, one `,\n` between one and the next.
pub open spec fn joined_lines(items: Seq<Seq<char>>) -> Seq<char>
    decreases items.len(),
{
    if items.len() == 0 {
        Seq::empty()
    } else if items.len() == 1 {
        items[0]
    } else {
        joined_lines(items.drop_last()) + seq![',', '\n'] + items.last()
    }
}

/// One JSON object laid out with its keys in the order given, each value
/// already rendered for its column; `indent` is the column of the closing
/// brace.
pub open spec fn json_object(indent: nat, fields: Seq<(Seq<char>, Seq<char>)>) -> Seq<char> {
    seq!['{', '\n'] + joined_lines(
        fields.map_values(
            |field: (Seq<char>, Seq<char>)| spaces(indent + 2) + json_quoted(field.0) + seq![':', ' '] + field.1,
        ),
    ) + seq!['\n'] + spaces(indent) + seq!['}']
}

/// One JSON array laid out an item to a line, each item already rendered for
/// its column; `indent` is the column of the closing bracket.
pub open spec fn json_array(indent: nat, items: Seq<Seq<char>>) -> Seq<char> {
    seq!['[', '\n'] + joined_lines(items.map_values(|item: Seq<char>| spaces(indent + 2) + item)) + seq!['\n']
        + spaces(indent) + seq![']']
}

fn push_spaces(s: &mut String, n: usize)
    ensures
        final(s)@ == old(s)@ + spaces(n as nat),
{
    let ghost start = s@;
    let mut k: usize = 0;
    while k < n
        invariant
            k <= n,
            s@ == start + spaces(k as nat),
        decreases n - k,
    {
        push_char(s, ' ');
        k = k + 1;
        assert(s@ =~= start + spaces(k as nat));
    }
}

proof fn lemma_joined_push(items: Seq<Seq<char>>, item: Seq<char>)
    ensures
        joined_lines(items.push(item)) == if items.len() == 0 {
            item
        } else {
            joined_lines(items) + seq![',', '\n'] + item
        },
{
    assert(items.push(item).drop_last() =~= items);
}

/// The field texts of an object: keys as given, values already rendered.
pub open spec fn field_texts(fields: Seq<(&str, String)>) -> Seq<(Seq<char>, Seq<char>)> {
    fields.map_values(|field: (&str, String)| (field.0@, field.1@))
}

/// Render one JSON object with its keys in the order they are given.
fn object(indent: usize, fields: &[(&str, String)]) -> (r: String)
    requires
        indent + 2 <= usize::MAX,
    ensures
        r@ == json_object(indent as nat, field_texts(fields@)),
{
    let ghost lines = field_texts(fields@).map_values(
        |field: (Seq<char>, Seq<char>)| spaces((indent + 2) as nat) + json_quoted(field.0) + seq![':', ' '] + field.1,
    );
    let mut body = String::new();
    let mut k: usize = 0;
    proof {
        assert(lines.take(0) =~= Seq::<Seq<char>>::empty());
    }
    while k < fields.len()
        invariant
            k <= fields@.len(),
            indent + 2 <= usize::MAX,
            lines == field_texts(fields@).map_values(
                |field: (Seq<char>, Seq<char>)| spaces((indent + 2) as nat) + json_quoted(field.0) + seq![':', ' '] + field.1,
            ),
            body@ == joined_lines(lines.take(k as int)),
        decreases fields@.len() - k,
    {
        let ghost before = body@;
        if k > 0 {
            push_char(&mut body, ',');
            push_char(&mut body, '\n');
        }
        push_spaces(&mut body, indent + 2);
        let key = quote(fields[k].0);
        push_str(&mut body, key.as_str());
        push_char(&mut body, ':');
        push_char(&mut body, ' ');
        push_str(&mut body, fields[k].1.as_str());
        proof {
            assert(lines.take(k + 1) =~= lines.take(k as int).push(lines[k as int]));
            lemma_joined_push(lines.take(k as int), lines[k as int]);
            assert(body@ =~= joined_lines(lines.take(k + 1)));
        }
        k = k + 1;
    }
    let mut r = String::new();
    push_char(&mut r, '{');
    push_char(&mut r, '\n');
    push_str(&mut r, body.as_str());
    push_char(&mut r, '\n');
    push_spaces(&mut r, indent);
    push_char(&mut r, '}');
    proof {
        assert(lines.take(fields@.len() as int) =~= lines);
    }
    assert(r@ =~= json_object(indent as nat, field_texts(fields@)));
    r
}

/// Render one JSON array whose items are already rendered for their column.
fn array(indent: usize, items: &[String]) -> (r: String)
    requires
        indent + 2 <= usize::MAX,
    ensures
        r@ == json_array(indent as nat, items@.map_values(|item: String| item@)),
{
    let ghost lines = items@.map_values(|item: String| item@).map_values(|item: Seq<char>| spaces((indent + 2) as nat) + item);
    let mut body = String::new();
    let mut k: usize = 0;
    proof {
        assert(lines.take(0) =~= Seq::<Seq<char>>::empty());
    }
    while k < items.len()
        invariant
            k <= items@.len(),
            indent + 2 <= usize::MAX,
            lines == items@.map_values(|item: String| item@).map_values(|item: Seq<char>| spaces((indent + 2) as nat) + item),
            body@ == joined_lines(lines.take(k as int)),
        decreases items@.len() - k,
    {
        if k > 0 {
            push_char(&mut body, ',');
            push_char(&mut body, '\n');
        }
        push_spaces(&mut body, indent + 2);
        push_str(&mut body, items[k].as_str());
        proof {
            assert(lines.take(k + 1) =~= lines.take(k as int).push(lines[k as int]));
            lemma_joined_push(lines.take(k as int), lines[k as int]);
            assert(body@ =~= joined_lines(lines.take(k + 1)));
        }
        k = k + 1;
    }
    let mut r = String::new();
    push_char(&mut r, '[');
    push_char(&mut r, '\n');
    push_str(&mut r, body.as_str());
    push_char(&mut r, '\n');
    push_spaces(&mut r, indent);
    push_char(&mut r, ']');
    proof {
        assert(lines.take(items@.len() as int) =~= lines);
    }
    assert(r@ =~= json_array(indent as nat, items@.map_values(|item: String| item@)));
    r
}

/// One column of a trial as the ledger writes it.
pub open spec fn column_entry(label: Seq<char>, candidate: Candidate, answer: Seq<char>, display: Seq<char>) -> Seq<char> {
    json_object(
        4,
        seq![
            ("label"@, json_quoted(label)),
            ("engine"@, json_quoted(candidate.engine@)),
            ("model"@, json_quoted(candidate.model@)),
            ("text"@, json_quoted(answer)),
            ("displayed"@, json_quoted(display)),
        ],
    )
}

/// Both columns of one trial as the ledger's `candidates` array, A first.
pub open spec fn candidates_entry(trial: Trial, answers: (Seq<char>, Seq<char>), shown: (Seq<char>, Seq<char>)) -> Seq<char> {
    json_array(
        2,
        seq![
            column_entry("A"@, trial.a, answers.0, shown.0),
            column_entry("B"@, trial.b, answers.1, shown.1),
        ],
    )
}

fn column(label: &str, candidate: &Candidate, answer: &str, display: &str) -> (r: String)
    ensures
        r@ == column_entry(label@, *candidate, answer@, display@),
{
    let fields = vec![
        ("label", quote(label)),
        ("engine", quote(candidate.engine.as_str())),
        ("model", quote(candidate.model.as_str())),
        ("text", quote(answer)),
        ("displayed", quote(display)),
    ];
    let r = object(4, fields.as_slice());
    proof {
        reveal_strlit("label");
        reveal_strlit("engine");
        reveal_strlit("model");
        reveal_strlit("text");
        reveal_strlit("displayed");
        assert(field_texts(fields@) =~= seq![
            ("label"@, json_quoted(label@)),
            ("engine"@, json_quoted(candidate.engine@)),
            ("model"@, json_quoted(candidate.model@)),
            ("text"@, json_quoted(answer@)),
            ("displayed"@, json_quoted(display@)),
        ]);
    }
    r
}

/// Render both columns of one trial as the ledger's `candidates` array.
fn candidates(trial: &Trial, answers: (&str, &str), shown: (&str, &str)) -> (r: String)
    ensures
        r@ == candidates_entry(*trial, (answers.0@, answers.1@), (shown.0@, shown.1@)),
{
    let columns = vec![
        column(LABELS[0], &trial.a, answers.0, shown.0),
        column(LABELS[1], &trial.b, answers.1, shown.1),
    ];
    let r = array(2, columns.as_slice());
    proof {
        assert(LABELS[0]@ == "A"@ && LABELS[1]@ == "B"@);
        assert(columns@.map_values(|item: String| item@) =~= seq![
            column_entry("A"@, trial.a, answers.0@, shown.0@),
            column_entry("B"@, trial.b, answers.1@, shown.1@),
        ]);
    }
    r
}

/// The ledger entry of one trial and the pending entry the `Stop` hook reads,
/// given when it ran (`at`) and what the original was.
pub open spec fn trial_texts(
    trial: Trial,
    at: Seq<char>,
    original: Seq<char>,
    answers: (Seq<char>, Seq<char>),
    shown: (Seq<char>, Seq<char>),
) -> (Seq<char>, Seq<char>) {
    let columns = candidates_entry(trial, answers, shown);
    (
        json_object(
            0,
            seq![
                ("code"@, json_quoted(trial.code@)),
                ("at"@, json_quoted(at)),
                ("original"@, json_quoted(original)),
                ("candidates"@, columns),
            ],
        ),
        json_object(0, seq![("code"@, json_quoted(trial.code@)), ("at"@, json_quoted(at)), ("candidates"@, columns)]),
    )
}

/// What one trial writes: the ledger entry, the evidence the choice of model
/// is decided on, and the pending entry that tells the next `Stop` what ran.
/// Both keep what each model wrote and what the reader was shown, A first.
pub fn trial_entries(trial: &Trial, at: &str, original: &str, answers: (&str, &str), shown: (&str, &str)) -> (r: (
    String,
    String,
))
    ensures
        (r.0@, r.1@) == trial_texts(*trial, at@, original@, (answers.0@, answers.1@), (shown.0@, shown.1@)),
{
    let columns = candidates(trial, answers, shown);
    let ledger_fields = vec![
        ("code", quote(trial.code.as_str())),
        ("at", quote(at)),
        ("original", quote(original)),
        ("candidates", columns.clone()),
    ];
    let pending_fields = vec![("code", quote(trial.code.as_str())), ("at", quote(at)), ("candidates", columns)];
    let ledger = object(0, ledger_fields.as_slice());
    let pending = object(0, pending_fields.as_slice());
    proof {
        reveal_strlit("code");
        reveal_strlit("at");
        reveal_strlit("original");
        reveal_strlit("candidates");
        let c = candidates_entry(*trial, (answers.0@, answers.1@), (shown.0@, shown.1@));
        assert(field_texts(ledger_fields@) =~= seq![
            ("code"@, json_quoted(trial.code@)),
            ("at"@, json_quoted(at@)),
            ("original"@, json_quoted(original@)),
            ("candidates"@, c),
        ]);
        assert(field_texts(pending_fields@) =~= seq![
            ("code"@, json_quoted(trial.code@)),
            ("at"@, json_quoted(at@)),
            ("candidates"@, c),
        ]);
    }
    (ledger, pending)
}

/// The record of one turn that was not sampled.
pub open spec fn run_text(
    at: Seq<char>,
    message: Seq<char>,
    original: Seq<char>,
    written: Seq<char>,
    displayed: Seq<char>,
    engine: Candidate,
) -> Seq<char> {
    json_object(
        0,
        seq![
            ("at"@, json_quoted(at)),
            ("message_id"@, json_quoted(message)),
            ("engine"@, json_quoted(engine.engine@)),
            ("model"@, json_quoted(engine.model@)),
            ("original"@, json_quoted(original)),
            ("text"@, json_quoted(written)),
            ("displayed"@, json_quoted(displayed)),
        ],
    )
}

/// What a turn that was not sampled writes: one engine, one rewrite, and the
/// three versions kept apart: what the assistant wrote, what the model made of
/// it, and what the reader saw after the deterministic fixes.
pub fn run_entry(at: &str, message: &str, original: &str, written: &str, displayed: &str, engine: &Candidate) -> (r:
    String)
    ensures
        r@ == run_text(at@, message@, original@, written@, displayed@, *engine),
{
    let fields = vec![
        ("at", quote(at)),
        ("message_id", quote(message)),
        ("engine", quote(engine.engine.as_str())),
        ("model", quote(engine.model.as_str())),
        ("original", quote(original)),
        ("text", quote(written)),
        ("displayed", quote(displayed)),
    ];
    let r = object(0, fields.as_slice());
    proof {
        reveal_strlit("at");
        reveal_strlit("message_id");
        reveal_strlit("engine");
        reveal_strlit("model");
        reveal_strlit("original");
        reveal_strlit("text");
        reveal_strlit("displayed");
        assert(field_texts(fields@) =~= seq![
            ("at"@, json_quoted(at@)),
            ("message_id"@, json_quoted(message@)),
            ("engine"@, json_quoted(engine.engine@)),
            ("model"@, json_quoted(engine.model@)),
            ("original"@, json_quoted(original@)),
            ("text"@, json_quoted(written@)),
            ("displayed"@, json_quoted(displayed@)),
        ]);
    }
    r
}

/// What the model is told about the trial this turn ran: the code name and
/// where the ledger entry is, never the rewrites or the model names.
pub open spec fn announcement_text(code: Seq<char>, ledger: Seq<char>) -> Seq<char> {
    "limae A/B：本轮有一次 A/B 对照，编号「"@ + code + "」，两栏是盲评。型号对应在 "@ + ledger
        + "；用户按编号给出偏好之前不要说出哪一栏是哪个模型。"@
}

/// The announcement of one trial, given its code name and the ledger entry's
/// path as it is displayed.
pub fn announcement(code: &str, ledger: &str) -> (r: String)
    ensures
        r@ == announcement_text(code@, ledger@),
{
    let mut r = String::new();
    push_str(&mut r, "limae A/B：本轮有一次 A/B 对照，编号「");
    push_str(&mut r, code);
    push_str(&mut r, "」，两栏是盲评。型号对应在 ");
    push_str(&mut r, ledger);
    push_str(&mut r, "；用户按编号给出偏好之前不要说出哪一栏是哪个模型。");
    assert(r@ =~= announcement_text(code@, ledger@));
    r
}

/// What `serde_json::from_slice` reads from a pending file's bytes: `None`
/// when they are not JSON, otherwise the string under the top-level key
/// `code`, or `None` inside when there is no such string.
pub uninterp spec fn json_code(bytes: Seq<u8>) -> Option<Option<Seq<char>>>;

/// `serde_json::from_slice` into a `Value`, and the string its `code` key
/// holds; named [`json_code`] of the bytes.
#[verifier::external_body]
fn code_field(bytes: &[u8]) -> (r: Option<Option<String>>)
    ensures
        match r {
            None => json_code(bytes@) is None,
            Some(None) => json_code(bytes@) == Some(None::<Seq<char>>),
            Some(Some(code)) => json_code(bytes@) == Some(Some(code@)),
        },
{
    match serde_json::from_slice::<serde_json::Value>(bytes) {
        Ok(pending) => Some(pending.get("code").and_then(serde_json::Value::as_str).map(str::to_owned)),
        Err(_) => None,
    }
}

/// The code name a pending file holds: `None` when the file is not JSON,
/// which leaves it in place; otherwise its `code` string, empty when it has
/// none.
pub open spec fn pending_code_of(bytes: Seq<u8>) -> Option<Seq<char>> {
    match json_code(bytes) {
        None => None,
        Some(None) => Some(Seq::empty()),
        Some(Some(code)) => Some(code),
    }
}

/// Read the code name out of a pending file's bytes.
pub fn pending_code(bytes: &[u8]) -> (r: Option<String>)
    ensures
        match r {
            None => pending_code_of(bytes@) is None,
            Some(code) => pending_code_of(bytes@) == Some(code@),
        },
{
    match code_field(bytes) {
        None => None,
        Some(None) => Some(String::new()),
        Some(Some(code)) => Some(code),
    }
}

/// What the model is told about this turn's trial: nothing when the pending
/// file named no code, else the announcement of the code and its ledger
/// entry.
pub fn trial_context(code: &str, ledger: &str) -> (r: String)
    ensures
        r@ == if code@.len() == 0 {
            Seq::empty()
        } else {
            announcement_text(code@, ledger@)
        },
{
    if code.is_empty() {
        String::new()
    } else {
        announcement(code, ledger)
    }
}

} // verus!
