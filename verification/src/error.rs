//! The crate's unified error type.

use crate::color::{Color, Style, plain_style};
use crate::field::NumError;
use crate::outside::{display_width, vis_width};
use crate::text::{
    chars_of, count_char, count_of, decimal, find_char, join, joined, lemma_next_of, next_of,
    push_repeated, repeated, show_u128, show_usize, string_from, texts,
};
use std::ops::Range;
use vstd::prelude::*;
use vstd::utf8::{decode_utf8, encode_utf8, is_char_boundary};

verus! {

/// Anything that stops a run.
#[derive(Debug)]
pub enum Error {
    /// The script could not be compiled into a plan: a malformed form, an
    /// unknown verb/operator, or a non-numeric literal where a number is
    /// required. Carries a human-readable message.
    Compile(String),
    /// A column referenced by the script is not present in the header. Carries
    /// the available column names so the message can suggest a near match.
    Column { name: String, available: Vec<String> },
    /// A column referenced by position (a bare integer) is outside the header.
    /// Carries the text as typed and the columns there are.
    ColumnIndex { index: String, available: Vec<String> },
    /// A numeric operation reached a non-numeric value at runtime.
    Num(NumError),
    /// I/O failure reading input or writing output, as the system words it.
    Io(String),
    /// A runtime condition that isn't one of the above (e.g. a missing header).
    Other(String),
    /// `error`, at `span`: a byte range of the script it was found in. Its
    /// message is that of `error` alone; [`excerpt`] shows the place.
    At { error: Box<Error>, span: Range<usize> },
}

impl Error {
    /// The error at that span, or at the place it has already.
    pub open spec fn placed_at(self, span: Range<usize>) -> Error {
        match self {
            Error::At { .. } => self,
            _ => Error::At { error: Box::new(self), span },
        }
    }

    /// The place of the error, if it has one.
    pub open spec fn place(self) -> Option<Range<usize>> {
        match self {
            Error::At { span, .. } => Some(span),
            _ => None,
        }
    }

    /// The error without its place.
    pub open spec fn itself(self) -> Error {
        match self {
            Error::At { error, .. } => *error,
            _ => self,
        }
    }

    /// `self` placed at `span` in the script, unless it already has a place:
    /// the first place given is the most precise one.
    pub fn at(self, span: Range<usize>) -> (r: Error)
        ensures
            self is At ==> r == self,
            self !is At ==> r == (Error::At { error: Box::new(self), span }),
            r == self.placed_at(span),
    {
        match self {
            Error::At { error, span } => Error::At { error, span },
            error => Error::At { error: Box::new(error), span },
        }
    }

    /// Where in the script the error was found, when that is known.
    pub fn span(&self) -> (r: Option<Range<usize>>)
        ensures
            r == (match *self {
                Error::At { span, .. } => Some(span),
                _ => None,
            }),
            r == self.place(),
    {
        match self {
            Error::At { span, .. } => Some(Range { start: span.start, end: span.end }),
            _ => None,
        }
    }

    /// The error itself, without its place.
    pub fn unplaced(&self) -> (r: &Error)
        ensures
            *r == (match *self {
                Error::At { error, .. } => *error,
                _ => *self,
            }),
            *r == self.itself(),
    {
        match self {
            Error::At { error, .. } => error,
            _ => self,
        }
    }

    /// What the error says to the user.
    pub open spec fn said(&self) -> Seq<char>
        decreases self,
    {
        match self {
            Error::Compile(msg) => msg@,
            Error::Column { name, available } => column_message(name@, texts(available@)),
            Error::ColumnIndex { index, available } => "column index "@ + index@
                + " is out of range — have "@ + decimal(available@.len()) + " columns ("@
                + previewed(texts(available@)) + ")"@,
            Error::Num(e) => NumError::message_spec(e.0@),
            Error::Io(msg) => msg@,
            Error::Other(msg) => msg@,
            Error::At { error, .. } => error.said(),
        }
    }

    /// What the error says to the user.
    pub fn message(&self) -> (r: String)
        ensures
            r@ == self.said(),
        decreases self,
    {
        match self {
            Error::Compile(msg) => msg.clone(),
            Error::Column { name, available } => {
                let mut r = "column not found: ".to_string();
                r.append(name.as_str());
                if let Some(s) = did_you_mean(name.as_str(), available.as_slice()) {
                    r.append(" (did you mean `");
                    r.append(s);
                    r.append("`?)");
                    proof {
                        lemma_closest_is_unique(name@, texts(available@));
                        assert(r@ =~= "column not found: "@ + name@ + hint(
                            name@,
                            texts(available@),
                        ));
                    }
                }
                r.append(" — have: ");
                r.append(preview(available.as_slice()).as_str());
                assert(r@ =~= column_message(name@, texts(available@)));
                r
            },
            Error::ColumnIndex { index, available } => {
                let mut r = "column index ".to_string();
                r.append(index.as_str());
                r.append(" is out of range — have ");
                r.append(show_usize(available.len()).as_str());
                r.append(" columns (");
                r.append(preview(available.as_slice()).as_str());
                r.append(")");
                r
            },
            Error::Num(e) => e.message(),
            Error::Io(msg) => msg.clone(),
            Error::Other(msg) => msg.clone(),
            Error::At { error, .. } => error.message(),
        }
    }
}

impl From<NumError> for Error {
    fn from(e: NumError) -> (r: Self) {
        Error::Num(e)
    }
}

impl vstd::std_specs::convert::FromSpecImpl<NumError> for Error {
    open spec fn obeys_from_spec() -> bool {
        true
    }

    open spec fn from_spec(e: NumError) -> Error {
        Error::Num(e)
    }
}

/// The smaller of two.
pub open spec fn least(a: nat, b: nat) -> nat {
    if a <= b {
        a
    } else {
        b
    }
}

/// The number of single-character edits (insertions, deletions, substitutions)
/// that turn `a` into `b`.
pub open spec fn edit_distance(a: Seq<char>, b: Seq<char>) -> nat
    decreases a.len() + b.len(),
{
    if a.len() == 0 {
        b.len()
    } else if b.len() == 0 {
        a.len()
    } else {
        least(
            edit_distance(a.drop_last(), b.drop_last()) + if a.last() == b.last() {
                0nat
            } else {
                1nat
            },
            least(edit_distance(a.drop_last(), b), edit_distance(a, b.drop_last())) + 1,
        )
    }
}

/// Levenshtein edit distance (two-row DP).
fn levenshtein(a: &str, b: &str) -> (d: usize)
    ensures
        d == edit_distance(a@, b@),
        length_difference(a@, b@) <= d <= larger_length(a@, b@),
{
    proof {
        law_distance_is_between_the_lengths(a@, b@);
    }
    let a = chars_of(a);
    let b = chars_of(b);
    let mut prev: Vec<usize> = Vec::new();
    let mut j: usize = 0;
    prev.push(0);
    while j < b.len()
        invariant
            j <= b.len(),
            prev@.len() == j + 1,
            forall|k: int|
                0 <= k <= j ==> #[trigger] prev@[k] == edit_distance(a@.take(0), b@.take(k)),
        decreases b.len() - j,
    {
        prev.push(j + 1);
        j += 1;
    }
    let mut i: usize = 0;
    while i < a.len()
        invariant
            i <= a.len(),
            prev@.len() == b@.len() + 1,
            forall|k: int|
                0 <= k <= b.len() ==> #[trigger] prev@[k] == edit_distance(
                    a@.take(i as int),
                    b@.take(k),
                ),
        decreases a.len() - i,
    {
        let ca = a[i];
        let ghost x = a@.take(i + 1);
        let mut cur: Vec<usize> = Vec::new();
        cur.push(i + 1);
        assert(x.drop_last() =~= a@.take(i as int));
        assert(edit_distance(x, b@.take(0)) == i + 1);
        let mut j: usize = 0;
        while j < b.len()
            invariant
                i < a.len(),
                j <= b.len(),
                prev@.len() == b@.len() + 1,
                ca == a@[i as int],
                x == a@.take(i + 1),
                x.drop_last() == a@.take(i as int),
                forall|k: int|
                    0 <= k <= b.len() ==> #[trigger] prev@[k] == edit_distance(
                        a@.take(i as int),
                        b@.take(k),
                    ),
                cur@.len() == j + 1,
                forall|k: int|
                    0 <= k <= j ==> #[trigger] cur@[k] == edit_distance(x, b@.take(k)),
            decreases b.len() - j,
        {
            let ghost y = b@.take(j + 1);
            proof {
                assert(y.drop_last() =~= b@.take(j as int));
                law_distance_is_between_the_lengths(x, y);
                assert(prev@[j as int] == edit_distance(x.drop_last(), y.drop_last()));
                assert(prev@[j + 1] == edit_distance(x.drop_last(), y));
                assert(cur@[j as int] == edit_distance(x, y.drop_last()));
            }
            let cost: usize = if ca != b[j] {
                1
            } else {
                0
            };
            let mut best: usize = prev[j].saturating_add(cost);
            let del: usize = prev[j + 1].saturating_add(1);
            let ins: usize = cur[j].saturating_add(1);
            if del < best {
                best = del;
            }
            if ins < best {
                best = ins;
            }
            cur.push(best);
            j += 1;
        }
        prev = cur;
        i += 1;
    }
    assert(a@.take(a@.len() as int) =~= a@);
    assert(b@.take(b@.len() as int) =~= b@);
    prev[b.len()]
}

/// Whether candidate `i` is the closest to `target`, the first of those that
/// are as close.
pub open spec fn closest(target: Seq<char>, candidates: Seq<Seq<char>>, i: int) -> bool {
    &&& 0 <= i < candidates.len()
    &&& forall|k: int|
        0 <= k < i ==> edit_distance(target, #[trigger] candidates[k]) > edit_distance(
            target,
            candidates[i],
        )
    &&& forall|k: int|
        i <= k < candidates.len() ==> edit_distance(target, #[trigger] candidates[k])
            >= edit_distance(target, candidates[i])
}

/// The length of a text in bytes.
pub open spec fn byte_len(s: Seq<char>) -> usize {
    encode_utf8(s).len() as usize
}

/// Whether `candidate` is near enough to be a plausible typo of `target`: within
/// a third of the longer length, or one edit away.
pub open spec fn near(target: Seq<char>, candidate: Seq<char>) -> bool {
    let longer = if byte_len(target) >= byte_len(candidate) {
        byte_len(target)
    } else {
        byte_len(candidate)
    };
    edit_distance(target, candidate) <= longer / 3 || edit_distance(target, candidate) <= 1
}

/// The candidate to suggest for `target`: the closest one, if it is near enough.
pub open spec fn suggestion(target: Seq<char>, candidates: Seq<Seq<char>>) -> Option<Seq<char>> {
    if exists|i: int| closest(target, candidates, i) && near(target, candidates[i]) {
        Some(candidates[choose|i: int| closest(target, candidates, i)])
    } else {
        None
    }
}

proof fn lemma_closest_is_unique(target: Seq<char>, candidates: Seq<Seq<char>>)
    ensures
        forall|i: int, k: int|
            closest(target, candidates, i) && closest(target, candidates, k) ==> i == k,
{
    assert forall|i: int, k: int|
        closest(target, candidates, i) && closest(target, candidates, k) implies i == k by {
        if i < k {
            assert(edit_distance(target, candidates[i]) > edit_distance(target, candidates[k]));
        } else if k < i {
            assert(edit_distance(target, candidates[k]) > edit_distance(target, candidates[i]));
        }
    }
}

/// The closest candidate to `target` by edit distance, if one is near enough to
/// be a plausible typo (within a third of the longer length, min 1). Powers the
/// "did you mean …?" hint for unknown columns and commands.
pub fn did_you_mean<'a>(target: &str, candidates: &'a [String]) -> (r: Option<&'a str>)
    ensures
        match r {
            Some(s) => suggestion(target@, texts(candidates@)) == Some(s@),
            None => suggestion(target@, texts(candidates@)) is None,
        },
{
    if candidates.len() == 0 {
        return None;
    }
    let ghost all = texts(candidates@);
    let mut best: usize = 0;
    let mut distance: usize = levenshtein(target, candidates[0].as_str());
    let mut i: usize = 1;
    assert(all[0] == candidates@[0]@);
    while i < candidates.len()
        invariant
            1 <= i <= candidates.len(),
            best < i,
            all == texts(candidates@),
            distance == edit_distance(target@, all[best as int]),
            forall|k: int|
                0 <= k < best ==> edit_distance(target@, #[trigger] all[k]) > distance,
            forall|k: int| best <= k < i ==> edit_distance(target@, #[trigger] all[k]) >= distance,
        decreases candidates.len() - i,
    {
        let d = levenshtein(target, candidates[i].as_str());
        assert(all[i as int] == candidates@[i as int]@);
        if d < distance {
            best = i;
            distance = d;
        }
        i += 1;
    }
    let found = candidates[best].as_str();
    proof {
        assert(closest(target@, all, best as int));
        lemma_closest_is_unique(target@, all);
        assert(all[best as int] == found@);
    }
    let a = target.len();
    let b = found.len();
    let longer: usize = if a >= b {
        a
    } else {
        b
    };
    if distance <= longer / 3 || distance <= 1 {
        Some(found)
    } else {
        None
    }
}

/// What follows an unknown name when there is one near it.
pub open spec fn hint(name: Seq<char>, available: Seq<Seq<char>>) -> Seq<char> {
    match suggestion(name, available) {
        Some(s) => " (did you mean `"@ + s + "`?)"@,
        None => seq![],
    }
}

/// What is said of a column that is not there.
pub open spec fn column_message(name: Seq<char>, available: Seq<Seq<char>>) -> Seq<char> {
    "column not found: "@ + name + hint(name, available) + " — have: "@ + previewed(available)
}

/// A short list of names: all of them if few, else the first several and how
/// many more there are.
pub open spec fn previewed(names: Seq<Seq<char>>) -> Seq<char> {
    if names.len() <= 8 {
        joined(names, ", "@)
    } else {
        joined(names.take(8), ", "@) + ", … (+"@ + decimal((names.len() - 8) as nat) + " more)"@
    }
}

/// A short list of `names` for an error message: all of them if few, else the
/// first several with a "+N more" tail.
pub fn preview(names: &[String]) -> (r: String)
    ensures
        r@ == previewed(texts(names@)),
{
    let show: usize = 8;
    if names.len() <= show {
        join(names, ", ")
    } else {
        let mut r = join(&names[0..show], ", ");
        assert(texts(names@.subrange(0, 8)) =~= texts(names@).take(8));
        r.append(", … (+");
        r.append(show_usize(names.len() - show).as_str());
        r.append(" more)");
        r
    }
}

/// Two texts are no edits apart just when they are the same.
pub proof fn law_no_distance_means_same(a: Seq<char>, b: Seq<char>)
    ensures
        edit_distance(a, b) == 0 <==> a == b,
    decreases a.len() + b.len(),
{
    if a.len() == 0 || b.len() == 0 {
        if edit_distance(a, b) == 0 {
            assert(a =~= b);
        }
    } else {
        law_no_distance_means_same(a.drop_last(), b.drop_last());
        if a == b {
            assert(edit_distance(a.drop_last(), b.drop_last()) == 0);
        }
        if edit_distance(a, b) == 0 {
            assert(a =~= a.drop_last().push(a.last()));
            assert(b =~= b.drop_last().push(b.last()));
        }
    }
}

/// Edits can be undone: the distance is the same both ways.
pub proof fn law_distance_is_symmetric(a: Seq<char>, b: Seq<char>)
    ensures
        edit_distance(a, b) == edit_distance(b, a),
    decreases a.len() + b.len(),
{
    if a.len() > 0 && b.len() > 0 {
        law_distance_is_symmetric(a.drop_last(), b.drop_last());
        law_distance_is_symmetric(a.drop_last(), b);
        law_distance_is_symmetric(a, b.drop_last());
    }
}

/// How much the lengths of two texts differ.
pub open spec fn length_difference(a: Seq<char>, b: Seq<char>) -> int {
    if a.len() >= b.len() {
        a.len() - b.len()
    } else {
        b.len() - a.len()
    }
}

/// The larger of the lengths of two texts.
pub open spec fn larger_length(a: Seq<char>, b: Seq<char>) -> int {
    if a.len() >= b.len() {
        a.len() as int
    } else {
        b.len() as int
    }
}

/// The distance lies between the difference and the larger of the two lengths.
pub proof fn law_distance_is_between_the_lengths(a: Seq<char>, b: Seq<char>)
    ensures
        length_difference(a, b) <= edit_distance(a, b) <= larger_length(a, b),
    decreases a.len() + b.len(),
{
    if a.len() > 0 && b.len() > 0 {
        law_distance_is_between_the_lengths(a.drop_last(), b.drop_last());
        law_distance_is_between_the_lengths(a.drop_last(), b);
        law_distance_is_between_the_lengths(a, b.drop_last());
    }
}

/// A detour over a third text is never shorter.
pub proof fn law_a_detour_is_no_shorter(a: Seq<char>, c: Seq<char>, b: Seq<char>)
    ensures
        edit_distance(a, b) <= edit_distance(a, c) + edit_distance(c, b),
    decreases a.len() + c.len() + b.len(),
{
    if a.len() == 0 || b.len() == 0 || c.len() == 0 {
        law_distance_is_between_the_lengths(a, b);
        law_distance_is_between_the_lengths(a, c);
        law_distance_is_between_the_lengths(c, b);
    } else {
        let (a0, b0, c0) = (a.drop_last(), b.drop_last(), c.drop_last());
        law_a_detour_is_no_shorter(a0, c, b);
        law_a_detour_is_no_shorter(a, c, b0);
        law_a_detour_is_no_shorter(a, c0, b0);
        law_a_detour_is_no_shorter(a, c0, b);
        law_a_detour_is_no_shorter(a0, c0, b0);
        law_a_detour_is_no_shorter(a0, c0, b);
    }
}

/// Whether `b` is `a` with `c` put in at `i`.
pub open spec fn inserts(a: Seq<char>, b: Seq<char>, i: int, c: char) -> bool {
    0 <= i <= a.len() && b == a.insert(i, c)
}

/// Whether `b` is `a` with `c` in place of what is at `i`.
pub open spec fn replaces(a: Seq<char>, b: Seq<char>, i: int, c: char) -> bool {
    0 <= i < a.len() && b == a.update(i, c)
}

/// Whether one insertion, deletion or substitution of a character turns `a` into
/// `b`.
pub open spec fn one_edit(a: Seq<char>, b: Seq<char>) -> bool {
    ||| exists|i: int, c: char| #[trigger] inserts(a, b, i, c)
    ||| exists|i: int, c: char| #[trigger] inserts(b, a, i, c)
    ||| exists|i: int, c: char| #[trigger] replaces(a, b, i, c)
}

/// Whether the texts are those on a way from `a` to `b`, one edit after the other.
pub open spec fn edits(way: Seq<Seq<char>>, a: Seq<char>, b: Seq<char>) -> bool {
    &&& way.len() > 0
    &&& way[0] == a
    &&& way.last() == b
    &&& forall|i: int| 0 <= i < way.len() - 1 ==> one_edit(#[trigger] way[i], way[i + 1])
}

proof fn lemma_insertion_is_near(a: Seq<char>, b: Seq<char>, i: int, c: char)
    requires
        inserts(a, b, i, c),
    ensures
        edit_distance(a, b) <= 1,
    decreases a.len(),
{
    if i == a.len() {
        assert(b.drop_last() =~= a);
        law_no_distance_means_same(a, a);
    } else {
        let (a0, b0) = (a.drop_last(), b.drop_last());
        assert(b0 =~= a0.insert(i, c));
        assert(b.last() == a.last());
        lemma_insertion_is_near(a0, b0, i, c);
    }
}

proof fn lemma_substitution_is_near(a: Seq<char>, b: Seq<char>, i: int, c: char)
    requires
        replaces(a, b, i, c),
    ensures
        edit_distance(a, b) <= 1,
    decreases a.len(),
{
    let (a0, b0) = (a.drop_last(), b.drop_last());
    if i == a.len() - 1 {
        assert(b0 =~= a0);
        law_no_distance_means_same(a0, b0);
    } else {
        assert(b0 =~= a0.update(i, c));
        assert(b.last() == a.last());
        lemma_substitution_is_near(a0, b0, i, c);
    }
}

proof fn lemma_one_edit_is_near(a: Seq<char>, b: Seq<char>)
    requires
        one_edit(a, b),
    ensures
        edit_distance(a, b) <= 1,
{
    if exists|i: int, c: char| #[trigger] inserts(a, b, i, c) {
        let (i, c) = choose|i: int, c: char| #[trigger] inserts(a, b, i, c);
        lemma_insertion_is_near(a, b, i, c);
    } else if exists|i: int, c: char| #[trigger] inserts(b, a, i, c) {
        let (i, c) = choose|i: int, c: char| #[trigger] inserts(b, a, i, c);
        lemma_insertion_is_near(b, a, i, c);
        law_distance_is_symmetric(a, b);
    } else {
        let (i, c) = choose|i: int, c: char| #[trigger] replaces(a, b, i, c);
        lemma_substitution_is_near(a, b, i, c);
    }
}

/// No way from one text to another has fewer edits than their distance.
pub proof fn law_no_way_is_shorter(way: Seq<Seq<char>>, a: Seq<char>, b: Seq<char>)
    requires
        edits(way, a, b),
    ensures
        edit_distance(a, b) <= way.len() - 1,
    decreases way.len(),
{
    if way.len() == 1 {
        law_no_distance_means_same(a, b);
    } else {
        let front = way.drop_last();
        let mid = front.last();
        assert forall|i: int| 0 <= i < front.len() - 1 implies one_edit(
            #[trigger] front[i],
            front[i + 1],
        ) by {
            assert(one_edit(way[i], way[i + 1]));
        }
        law_no_way_is_shorter(front, a, mid);
        assert(one_edit(way[way.len() - 2], way[way.len() - 1]));
        lemma_one_edit_is_near(mid, b);
        law_a_detour_is_no_shorter(a, mid, b);
    }
}

proof fn lemma_edit_behind(a: Seq<char>, b: Seq<char>, x: char)
    requires
        one_edit(a, b),
    ensures
        one_edit(a.push(x), b.push(x)),
{
    if exists|i: int, c: char| #[trigger] inserts(a, b, i, c) {
        let (i, c) = choose|i: int, c: char| #[trigger] inserts(a, b, i, c);
        assert(b.push(x) =~= a.push(x).insert(i, c));
        assert(inserts(a.push(x), b.push(x), i, c));
    } else if exists|i: int, c: char| #[trigger] inserts(b, a, i, c) {
        let (i, c) = choose|i: int, c: char| #[trigger] inserts(b, a, i, c);
        assert(a.push(x) =~= b.push(x).insert(i, c));
        assert(inserts(b.push(x), a.push(x), i, c));
    } else {
        let (i, c) = choose|i: int, c: char| #[trigger] replaces(a, b, i, c);
        assert(b.push(x) =~= a.push(x).update(i, c));
        assert(replaces(a.push(x), b.push(x), i, c));
    }
}

proof fn lemma_one_more(way: Seq<Seq<char>>, a: Seq<char>, m: Seq<char>, b: Seq<char>)
    requires
        edits(way, a, m),
        one_edit(m, b),
    ensures
        edits(way.push(b), a, b),
{
    let all = way.push(b);
    assert forall|i: int| 0 <= i < all.len() - 1 implies one_edit(#[trigger] all[i], all[i + 1]) by {
        if i < way.len() - 1 {
            assert(one_edit(way[i], way[i + 1]));
        }
    }
}

proof fn lemma_one_before(rest: Seq<Seq<char>>, a: Seq<char>, m: Seq<char>, b: Seq<char>)
    requires
        edits(rest, m, b),
        one_edit(a, m),
    ensures
        edits(seq![a] + rest, a, b),
{
    let way = seq![a] + rest;
    assert forall|i: int| 0 <= i < way.len() - 1 implies one_edit(#[trigger] way[i], way[i + 1]) by {
        if i > 0 {
            assert(one_edit(rest[i - 1], rest[i]));
        }
    }
}

/// Each text with `x` behind it.
pub open spec fn all_with(way: Seq<Seq<char>>, x: char) -> Seq<Seq<char>> {
    Seq::new(way.len(), |i: int| way[i].push(x))
}

proof fn lemma_way_behind(way: Seq<Seq<char>>, a: Seq<char>, b: Seq<char>, x: char)
    requires
        edits(way, a, b),
    ensures
        edits(all_with(way, x), a.push(x), b.push(x)),
{
    let all = all_with(way, x);
    assert forall|i: int| 0 <= i < all.len() - 1 implies one_edit(#[trigger] all[i], all[i + 1]) by {
        assert(one_edit(way[i], way[i + 1]));
        lemma_edit_behind(way[i], way[i + 1], x);
    }
}

proof fn lemma_last_edits(t: Seq<char>)
    requires
        t.len() > 0,
    ensures
        t.drop_last().push(t.last()) == t,
        one_edit(t, t.drop_last()),
        one_edit(t.drop_last(), t),
        forall|x: char| one_edit(#[trigger] t.drop_last().push(x), t),
{
    let m = t.drop_last();
    let n = m.len() as int;
    assert(t =~= m.push(t.last()));
    assert(t =~= m.insert(n, t.last()));
    assert(inserts(m, t, n, t.last()));
    assert forall|x: char| one_edit(#[trigger] m.push(x), t) by {
        assert(t =~= m.push(x).update(n, t.last()));
        assert(replaces(m.push(x), t, n, t.last()));
    }
}

/// There is a way from one text to another of as many edits as their distance.
pub proof fn law_there_is_a_shortest_way(a: Seq<char>, b: Seq<char>) -> (way: Seq<Seq<char>>)
    ensures
        edits(way, a, b),
        way.len() == edit_distance(a, b) + 1,
    decreases a.len() + b.len(),
{
    if a.len() == 0 && b.len() == 0 {
        assert(a =~= b);
        seq![a]
    } else if b.len() > 0 && edit_distance(a, b) == edit_distance(a, b.drop_last()) + 1 {
        let way = law_there_is_a_shortest_way(a, b.drop_last());
        lemma_last_edits(b);
        lemma_one_more(way, a, b.drop_last(), b);
        way.push(b)
    } else if a.len() > 0 && edit_distance(a, b) == edit_distance(a.drop_last(), b) + 1 {
        let rest = law_there_is_a_shortest_way(a.drop_last(), b);
        lemma_last_edits(a);
        lemma_one_before(rest, a, a.drop_last(), b);
        seq![a] + rest
    } else {
        let x = a.last();
        let front = law_there_is_a_shortest_way(a.drop_last(), b.drop_last());
        let way = all_with(front, x);
        let m = b.drop_last().push(x);
        lemma_last_edits(a);
        lemma_last_edits(b);
        lemma_way_behind(front, a.drop_last(), b.drop_last(), x);
        if x == b.last() {
            way
        } else {
            lemma_one_more(way, a, m, b);
            way.push(b)
        }
    }
}

/// A name that is among the candidates is always the one suggested for itself.
pub proof fn law_an_exact_name_is_suggested(candidates: Seq<Seq<char>>, i: int)
    requires
        0 <= i < candidates.len(),
    ensures
        suggestion(candidates[i], candidates) == Some(candidates[i]),
{
    let t = candidates[i];
    law_no_distance_means_same(t, t);
    lemma_closest_is_unique(t, candidates);
    let j = lemma_first_same(candidates, t, i);
    assert forall|k: int| 0 <= k < j implies edit_distance(t, #[trigger] candidates[k])
        > edit_distance(t, candidates[j]) by {
        law_no_distance_means_same(t, candidates[k]);
    }
    assert(closest(t, candidates, j));
    assert(near(t, candidates[j]));
}

proof fn lemma_closest_of(target: Seq<char>, candidates: Seq<Seq<char>>, n: int) -> (i: int)
    requires
        0 < n <= candidates.len(),
    ensures
        closest(target, candidates.take(n), i),
    decreases n,
{
    let all = candidates.take(n);
    if n == 1 {
        0
    } else {
        let j = lemma_closest_of(target, candidates, n - 1);
        let front = candidates.take(n - 1);
        assert forall|k: int| 0 <= k < n - 1 implies #[trigger] all[k] == front[k] by {
        }
        if edit_distance(target, all[n - 1]) < edit_distance(target, all[j]) {
            assert forall|k: int| 0 <= k < n - 1 implies edit_distance(target, #[trigger] all[k])
                > edit_distance(target, all[n - 1]) by {
                assert(all[k] == front[k]);
            }
            assert(closest(target, all, n - 1));
            n - 1
        } else {
            assert forall|k: int| 0 <= k < j implies edit_distance(target, #[trigger] all[k])
                > edit_distance(target, all[j]) by {
                assert(all[k] == front[k]);
            }
            assert forall|k: int| j <= k < n implies edit_distance(target, all[j])
                <= edit_distance(target, #[trigger] all[k]) by {
                if k < n - 1 {
                    assert(all[k] == front[k]);
                }
            }
            assert(closest(target, all, j));
            j
        }
    }
}

/// Where a candidate is one edit away, or none, one such is suggested; where all such
/// are one and the same, that one.
pub proof fn law_a_name_one_edit_away_is_suggested(
    target: Seq<char>,
    candidates: Seq<Seq<char>>,
    i: int,
)
    requires
        0 <= i < candidates.len(),
        edit_distance(target, candidates[i]) <= 1,
    ensures
        suggestion(target, candidates) matches Some(s) && candidates.contains(s)
            && edit_distance(target, s) <= 1,
        (forall|k: int|
            0 <= k < candidates.len() && edit_distance(target, #[trigger] candidates[k]) <= 1
                ==> candidates[k] == candidates[i]) ==> suggestion(target, candidates) == Some(
            candidates[i],
        ),
{
    let j = lemma_closest_of(target, candidates, candidates.len() as int);
    assert(candidates.take(candidates.len() as int) =~= candidates);
    lemma_closest_is_unique(target, candidates);
    assert(edit_distance(target, candidates[j]) <= edit_distance(target, candidates[i]));
    assert(near(target, candidates[j]));
    assert(candidates.contains(candidates[j]));
}

proof fn lemma_first_same(candidates: Seq<Seq<char>>, t: Seq<char>, i: int) -> (j: int)
    requires
        0 <= i < candidates.len(),
        candidates[i] == t,
    ensures
        0 <= j <= i,
        candidates[j] == t,
        forall|k: int| 0 <= k < j ==> #[trigger] candidates[k] != t,
    decreases i,
{
    if exists|k: int| 0 <= k < i && #[trigger] candidates[k] == t {
        let k = choose|k: int| 0 <= k < i && #[trigger] candidates[k] == t;
        lemma_first_same(candidates, t, k)
    } else {
        i
    }
}

/// Where the last line of `s` begins.
pub open spec fn last_line_start(s: Seq<char>) -> int
    decreases s.len(),
{
    if s.len() == 0 {
        0
    } else if s.last() == '\n' {
        s.len() as int
    } else {
        last_line_start(s.drop_last())
    }
}

/// A text as an excerpt shows it: a tab would take a terminal's own width, so it
/// is one space, and the markers stay under what they mark.
pub open spec fn detabbed(s: Seq<char>) -> Seq<char> {
    s.map_values(
        |c: char|
            if c == '\t' {
                ' '
            } else {
                c
            },
    )
}

/// Whether a text has more than one line that holds anything or is followed by
/// one that does.
pub open spec fn many_lines(s: Seq<char>) -> bool {
    exists|i: int, j: int| 0 <= i < j < s.len() && #[trigger] s[i] == '\n' && #[trigger] s[j] != '\n'
}

/// The byte of the script at which a span starts.
pub open spec fn span_start(script: Seq<char>, span: Range<usize>) -> int {
    if span.start <= encode_utf8(script).len() {
        span.start as int
    } else {
        encode_utf8(script).len() as int
    }
}

/// The script before the span.
pub open spec fn before_span(script: Seq<char>, span: Range<usize>) -> Seq<char> {
    decode_utf8(encode_utf8(script).subrange(0, span_start(script, span)))
}

/// What the line that the span starts on holds from there. A CRLF line's `\r` is
/// not part of what it shows.
pub open spec fn line_from_span(script: Seq<char>, span: Range<usize>) -> Seq<char> {
    let tail = decode_utf8(
        encode_utf8(script).subrange(
            span_start(script, span),
            encode_utf8(script).len() as int,
        ),
    );
    crate::csv::without_cr(tail.take(next_of(tail, '\n', 0)))
}

/// How many bytes of that line the span covers.
pub open spec fn span_bytes(script: Seq<char>, span: Range<usize>) -> int {
    let line = encode_utf8(line_from_span(script, span)).len() as int;
    let wide = span.end - span_start(script, span);
    if wide <= 0 {
        0
    } else if wide <= line {
        wide
    } else {
        line
    }
}

/// The part of the line that the span covers.
pub open spec fn in_span(script: Seq<char>, span: Range<usize>) -> Seq<char> {
    decode_utf8(
        encode_utf8(line_from_span(script, span)).subrange(0, span_bytes(script, span)),
    )
}

/// Whether the span starts and ends between characters.
pub open spec fn on_boundaries(script: Seq<char>, span: Range<usize>) -> bool {
    &&& is_char_boundary(encode_utf8(script), span_start(script, span))
    &&& is_char_boundary(
        encode_utf8(line_from_span(script, span)),
        span_bytes(script, span),
    )
}

/// Bold red.
pub open spec fn marker_style() -> Style {
    Style { fg: Some(Color::Base(1)), bold: true, ..plain_style() }
}

/// The line and the markers under it: `head` is the script before the span,
/// `rest` what its line goes on with, `marked` the part of that to mark.
pub open spec fn drawn(
    head: Seq<char>,
    rest: Seq<char>,
    marked: Seq<char>,
    many: bool,
    color: bool,
) -> Seq<char> {
    let lead_text = detabbed(head.skip(last_line_start(head)));
    let line = lead_text + detabbed(rest);
    let wide = display_width(detabbed(marked));
    let carets = repeated(
        '^',
        if wide >= 1 {
            wide as nat
        } else {
            1
        },
    );
    let markers = if color {
        marker_style().painted(carets)
    } else {
        carets
    };
    let lead = repeated(' ', display_width(lead_text) as nat);
    if many {
        let number = decimal(count_of(head, '\n') + 1);
        number + " | "@ + line + "\n"@ + repeated(' ', number.len()) + " | "@ + lead + markers
    } else {
        "  "@ + line + "\n  "@ + lead + markers
    }
}

/// What [`excerpt`] shows.
pub open spec fn excerpted(script: Seq<char>, span: Range<usize>, color: bool) -> Seq<char> {
    drawn(
        before_span(script, span),
        line_from_span(script, span),
        in_span(script, span),
        many_lines(script),
        color,
    )
}

fn detab(v: &[char]) -> (s: String)
    ensures
        s@ == detabbed(v@),
{
    let mut s = String::new();
    let mut i: usize = 0;
    while i < v.len()
        invariant
            i <= v.len(),
            s@ == detabbed(v@).take(i as int),
        decreases v.len() - i,
    {
        if v[i] == '\t' {
            s.push(' ');
        } else {
            s.push(v[i]);
        }
        assert(s@ =~= detabbed(v@).take(i + 1));
        i += 1;
    }
    assert(detabbed(v@).take(v@.len() as int) =~= detabbed(v@));
    s
}

fn has_many_lines(v: &[char]) -> (r: bool)
    ensures
        r == many_lines(v@),
{
    let first = find_char(v, '\n', 0);
    proof {
        lemma_next_of(v@, '\n', 0);
    }
    let mut j: usize = first;
    while j < v.len()
        invariant
            first <= j <= v.len(),
            first < v.len() ==> v@[first as int] == '\n',
            forall|k: int| 0 <= k < first ==> v@[k] != '\n',
            forall|k: int| first <= k < j ==> v@[k] == '\n',
        decreases v.len() - j,
    {
        if v[j] != '\n' {
            assert(v@[first as int] == '\n' && v@[j as int] != '\n');
            return true;
        }
        j += 1;
    }
    false
}

/// Where the last line of `v` begins.
fn line_start_of(v: &[char]) -> (n: usize)
    ensures
        n == last_line_start(v@),
        n <= v.len(),
{
    let mut n: usize = v.len();
    assert(v@.take(v@.len() as int) =~= v@);
    while n > 0 && v[n - 1] != '\n'
        invariant
            n <= v.len(),
            last_line_start(v@) == last_line_start(v@.take(n as int)),
        decreases n,
    {
        assert(v@.take(n as int).drop_last() =~= v@.take(n - 1));
        n -= 1;
    }
    n
}

fn caret_line(marked: &[char], color: bool) -> (markers: String)
    ensures
        ({
            let wide = display_width(detabbed(marked@));
            let carets = repeated(
                '^',
                if wide >= 1 {
                    wide as nat
                } else {
                    1
                },
            );
            markers@ == if color {
                marker_style().painted(carets)
            } else {
                carets
            }
        }),
{
    let wide = vis_width(detab(marked).as_str());
    let n: usize = if wide >= 1 {
        wide
    } else {
        1
    };
    let mut markers = String::new();
    push_repeated(&mut markers, '^', n);
    assert(markers@ =~= repeated('^', n as nat));
    if color {
        let style = Style { fg: Some(Color::Base(1)), bold: true, ..Style::default() };
        style.paint(markers.as_str())
    } else {
        markers
    }
}

fn draw_excerpt(hv: &[char], rest: &[char], marked: &[char], many: bool, color: bool) -> (r: String)
    ensures
        r@ == drawn(hv@, rest@, marked@, many, color),
{
    let line_start = line_start_of(hv);
    let lead_text = detab(&hv[line_start..hv.len()]);
    assert(hv@.subrange(line_start as int, hv@.len() as int) =~= hv@.skip(line_start as int));
    let lead = vis_width(lead_text.as_str());
    let markers = caret_line(marked, color);
    let ghost shown = detabbed(rest@);
    if many {
        let number = show_u128(count_char(hv, '\n') as u128 + 1);
        let gutter = chars_of(number.as_str()).len();
        let ghost num = number@;
        let mut r = number;
        r.append(" | ");
        r.append(lead_text.as_str());
        r.append(detab(rest).as_str());
        assert(r@ =~= num + " | "@ + (lead_text@ + shown));
        r.append("\n");
        push_repeated(&mut r, ' ', gutter);
        r.append(" | ");
        push_repeated(&mut r, ' ', lead);
        r.append(markers.as_str());
        r
    } else {
        let mut r = "  ".to_string();
        r.append(lead_text.as_str());
        r.append(detab(rest).as_str());
        assert(r@ =~= "  "@ + (lead_text@ + shown));
        r.append("\n  ");
        push_repeated(&mut r, ' ', lead);
        r.append(markers.as_str());
        r
    }
}

/// The line of `script` that `span` starts on, with a `^` under each column
/// of the span (at least one, and none past the end of the line), for an
/// error message. A script of several lines numbers the line; `color` paints
/// the markers bold red.
pub fn excerpt(script: &str, span: Range<usize>, color: bool) -> (r: String)
    requires
        on_boundaries(script@, span),
    ensures
        r@ == excerpted(script@, span, color),
{
    let len: usize = script.as_bytes().len();
    let start: usize = if span.start <= len {
        span.start
    } else {
        len
    };
    let (head, tail) = script.split_at(start);
    proof {
        vstd::utf8::encode_utf8_decode_utf8(head@);
        vstd::utf8::encode_utf8_decode_utf8(tail@);
        assert(head@ == before_span(script@, span));
    }
    let hv = chars_of(head);
    let tv = chars_of(tail);
    let nl = find_char(tv.as_slice(), '\n', 0);
    let mut line_end: usize = nl;
    if line_end > 0 && tv[line_end - 1] == '\r' {
        line_end -= 1;
    }
    let rest = string_from(tv.as_slice(), 0, line_end);
    proof {
        assert(tv@.subrange(0, nl as int) =~= tv@.take(nl as int));
        assert(rest@ =~= line_from_span(script@, span));
    }
    let rest_len: usize = rest.as_str().as_bytes().len();
    let covered: usize = if span.end <= start {
        0
    } else if span.end - start <= rest_len {
        span.end - start
    } else {
        rest_len
    };
    let (marked, _) = rest.as_str().split_at(covered);
    proof {
        vstd::utf8::encode_utf8_decode_utf8(marked@);
        assert(marked@ == in_span(script@, span));
    }
    let sv = chars_of(script);
    let many = has_many_lines(sv.as_slice());
    let mv = chars_of(marked);
    let rv = chars_of(rest.as_str());
    draw_excerpt(hv.as_slice(), rv.as_slice(), mv.as_slice(), many, color)
}

} // verus!
