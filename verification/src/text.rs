//! Name keys: what two contact names are compared by.
//!
//! A name is trimmed, lower-cased and split at whitespace. Its key is the
//! first word together with the last word. A name of a single word has no
//! last word of its own: that one word is both. Two names collide when their
//! keys are equal, so whatever stands between the two words is ignored, and
//! a name of one word collides with names of that one word only.
//!
//! Which characters beyond ASCII are whitespace and what the lower-case form
//! of a string is are taken from the standard library and not defined here.

use vstd::prelude::*;

verus! {

/// Whether `c`, a character beyond ASCII, is whitespace, as
/// `char::is_whitespace` decides it.
pub uninterp spec fn is_wide_space(c: char) -> bool;

/// Whether `c` is whitespace. Among the ASCII characters these are the blank
/// and the five controls from the horizontal tab to the carriage return.
pub open spec fn is_space(c: char) -> bool {
    if (c as u32) < 128 {
        c == ' ' || 9 <= (c as u32) <= 13
    } else {
        is_wide_space(c)
    }
}

/// The lower-case form of `s`, as `str::to_lowercase` computes it.
pub uninterp spec fn lowercase(s: Seq<char>) -> Seq<char>;

/// `char::is_whitespace` reports the Unicode `White_Space` property of a
/// character. Of the ASCII characters the blank and U+0009 to U+000D have
/// it, and no other. Of a character beyond ASCII nothing is claimed but that
/// the answer depends on the character alone.
pub assume_specification[ char::is_whitespace ](c: char) -> (b: bool)
    ensures
        (c as u32) < 128 ==> b == (c == ' ' || 9 <= (c as u32) <= 13),
        (c as u32) >= 128 ==> b == is_wide_space(c),
;

/// `str::to_lowercase` returns the lower-case equivalent of a string slice as
/// a new `String`. Nothing is claimed of it but that the result depends on
/// the characters of the slice alone.
pub assume_specification[ str::to_lowercase ](s: &str) -> (r: String)
    ensures
        r@ == lowercase(s@),
;

/// Length of the longest prefix of `s` whose characters are all whitespace
/// (`space` true) or all not whitespace (`space` false).
pub open spec fn run_len(s: Seq<char>, space: bool) -> nat
    decreases s.len(),
{
    if s.len() == 0 || is_space(s[0]) != space {
        0
    } else {
        1 + run_len(s.drop_first(), space)
    }
}

/// `s` without its leading and trailing whitespace.
pub open spec fn trim(s: Seq<char>) -> Seq<char> {
    if run_len(s, true) == s.len() {
        Seq::empty()
    } else {
        s.subrange(run_len(s, true) as int, s.len() - run_len(s.reverse(), true))
    }
}

/// The first and the last word of a name; `last` is `None` where the name
/// has one word only.
pub struct NameKey {
    pub first: Vec<char>,
    pub last: Option<Vec<char>>,
}

/// The characters of a [`NameKey`].
pub ghost struct NameKeyView {
    pub first: Seq<char>,
    pub last: Option<Seq<char>>,
}

impl View for NameKey {
    type V = NameKeyView;

    open spec fn view(&self) -> NameKeyView {
        NameKeyView {
            first: self.first@,
            last: match self.last {
                Some(w) => Some(w@),
                None => None,
            },
        }
    }
}

/// The key of a text that is already in lower case: `None` where it holds no
/// word at all.
pub open spec fn key_of_words(s: Seq<char>) -> Option<NameKeyView> {
    let t = trim(s);
    let n = run_len(t, false);
    if t.len() == 0 {
        None
    } else {
        Some(
            NameKeyView {
                first: t.take(n as int),
                last: if n == t.len() {
                    None
                } else {
                    Some(t.skip(t.len() - run_len(t.reverse(), false)))
                },
            },
        )
    }
}

/// The key of a name as it was typed.
pub open spec fn key_of(name: Seq<char>) -> Option<NameKeyView> {
    key_of_words(lowercase(trim(name)))
}

/// Whether two keys stand for the same name: they agree on the first word
/// and on the last, where two names of one word agree on the last.
pub open spec fn keys_collide(a: NameKeyView, b: NameKeyView) -> bool {
    a.first == b.first && a.last == b.last
}

/// Whether two names, as typed, count as the same name.
pub open spec fn names_collide(a: Seq<char>, b: Seq<char>) -> bool {
    &&& key_of(a) is Some
    &&& key_of(b) is Some
    &&& keys_collide(key_of(a)->0, key_of(b)->0)
}

/// A prefix of `n` characters of one kind that cannot be made longer is the
/// run that `run_len` measures.
proof fn lemma_run_len_is(s: Seq<char>, space: bool, n: nat)
    requires
        n <= s.len(),
        forall|k: int| 0 <= k < n ==> is_space(#[trigger] s[k]) == space,
        n == s.len() || is_space(s[n as int]) != space,
    ensures
        run_len(s, space) == n,
    decreases n,
{
    if n > 0 {
        let rest = s.drop_first();
        assert forall|k: int| 0 <= k < n - 1 implies is_space(#[trigger] rest[k]) == space by {
            assert(rest[k] == s[k + 1]);
        }
        lemma_run_len_is(rest, space, (n - 1) as nat);
    }
}

/// What `run_len` says of the characters it counts and of the one after them.
proof fn lemma_run_len_bounds(s: Seq<char>, space: bool)
    ensures
        run_len(s, space) <= s.len(),
        forall|k: int| 0 <= k < run_len(s, space) ==> is_space(#[trigger] s[k]) == space,
        run_len(s, space) < s.len() ==> is_space(s[run_len(s, space) as int]) != space,
    decreases s.len(),
{
    if s.len() > 0 && is_space(s[0]) == space {
        let rest = s.drop_first();
        lemma_run_len_bounds(rest, space);
        assert forall|k: int| 0 <= k < run_len(s, space) implies is_space(#[trigger] s[k])
            == space by {
            if k > 0 {
                assert(s[k] == rest[k - 1]);
            }
        }
        if run_len(s, space) < s.len() {
            assert(s[run_len(s, space) as int] == rest[run_len(rest, space) as int]);
        }
    }
}

/// The characters of `s`, one by one.
pub fn chars_of(s: &str) -> (r: Vec<char>)
    ensures
        r@ == s@,
{
    let mut r: Vec<char> = Vec::new();
    for c in it: s.chars()
        invariant
            r@ == it.seq().take(it.index() as int),
            it.seq() == s@,
    {
        r.push(c);
    }
    r
}

/// Counts, from `from` on and before `to`, the characters of one kind that
/// follow each other without a break.
fn run_forward(cs: &Vec<char>, from: usize, to: usize, space: bool) -> (n: usize)
    requires
        from <= to <= cs.len(),
    ensures
        n == run_len(cs@.subrange(from as int, to as int), space),
        from + n <= to,
{
    let ghost part = cs@.subrange(from as int, to as int);
    let mut i: usize = from;
    while i < to && cs[i].is_whitespace() == space
        invariant
            from <= i <= to <= cs.len(),
            part == cs@.subrange(from as int, to as int),
            forall|k: int| 0 <= k < i - from ==> is_space(#[trigger] part[k]) == space,
        decreases to - i,
    {
        i = i + 1;
    }
    proof {
        lemma_run_len_is(part, space, (i - from) as nat);
    }
    i - from
}

/// Counts, backwards from the character before `to` and not beyond `from`,
/// the characters of one kind that follow each other without a break.
fn run_backward(cs: &Vec<char>, from: usize, to: usize, space: bool) -> (n: usize)
    requires
        from <= to <= cs.len(),
    ensures
        n == run_len(cs@.subrange(from as int, to as int).reverse(), space),
        from + n <= to,
{
    let ghost part = cs@.subrange(from as int, to as int).reverse();
    let mut i: usize = to;
    while i > from && cs[i - 1].is_whitespace() == space
        invariant
            from <= i <= to <= cs.len(),
            part == cs@.subrange(from as int, to as int).reverse(),
            forall|k: int| 0 <= k < to - i ==> is_space(#[trigger] part[k]) == space,
        decreases i,
    {
        i = i - 1;
    }
    proof {
        lemma_run_len_is(part, space, (to - i) as nat);
    }
    to - i
}

/// Where the trimmed text begins and ends within `cs`.
pub fn trim_bounds(cs: &Vec<char>) -> (r: (usize, usize))
    ensures
        r.0 <= r.1 <= cs.len(),
        cs@.subrange(r.0 as int, r.1 as int) == trim(cs@),
{
    let len = cs.len();
    assert(cs@.subrange(0, len as int) == cs@);
    let lead = run_forward(cs, 0, len, true);
    if lead == len {
        (len, len)
    } else {
        let trail = run_backward(cs, 0, len, true);
        proof {
            lemma_run_len_bounds(cs@, true);
            lemma_run_len_bounds(cs@.reverse(), true);
            if lead + trail > len {
                let k = len - 1 - lead;
                assert(cs@.reverse()[k] == cs@[lead as int]);
            }
        }
        (lead, len - trail)
    }
}

/// A copy of the characters of `cs` from `from` on and before `to`.
fn copy_range(cs: &Vec<char>, from: usize, to: usize) -> (r: Vec<char>)
    requires
        from <= to <= cs.len(),
    ensures
        r@ == cs@.subrange(from as int, to as int),
{
    let mut r: Vec<char> = Vec::new();
    let mut i: usize = from;
    while i < to
        invariant
            from <= i <= to <= cs.len(),
            r@ == cs@.subrange(from as int, i as int),
        decreases to - i,
    {
        r.push(cs[i]);
        i = i + 1;
    }
    r
}

/// Whether two words hold the same characters.
pub fn same_word(a: &Vec<char>, b: &Vec<char>) -> (r: bool)
    ensures
        r == (a@ == b@),
{
    if a.len() != b.len() {
        return false;
    }
    let mut i: usize = 0;
    while i < a.len()
        invariant
            i <= a.len(),
            a.len() == b.len(),
            forall|k: int| 0 <= k < i ==> a@[k] == b@[k],
        decreases a.len() - i,
    {
        if a[i] != b[i] {
            return false;
        }
        i = i + 1;
    }
    assert(a@ =~= b@);
    true
}

/// The key of a text that is already in lower case.
pub fn words_key(cs: &Vec<char>) -> (k: Option<NameKey>)
    ensures
        key_of_words(cs@) == match k {
            Some(key) => Some(key@),
            None => None,
        },
{
    let (start, end) = trim_bounds(cs);
    if start == end {
        return None;
    }
    let ghost t = cs@.subrange(start as int, end as int);
    let n = run_forward(cs, start, end, false);
    let first = copy_range(cs, start, start + n);
    assert(first@ == t.take(n as int));
    if start + n == end {
        return Some(NameKey { first, last: None });
    }
    let m = run_backward(cs, start, end, false);
    let last = copy_range(cs, end - m, end);
    assert(last@ == t.skip(t.len() - m));
    Some(NameKey { first, last: Some(last) })
}

/// The key of a name as it was typed: `None` where the name holds no word.
pub fn name_key(name: &str) -> (k: Option<NameKey>)
    ensures
        key_of(name@) == match k {
            Some(key) => Some(key@),
            None => None,
        },
{
    let typed = chars_of(name);
    let (start, end) = trim_bounds(&typed);
    let lowered = name.substring_char(start, end).to_lowercase();
    let cs = chars_of(lowered.as_str());
    words_key(&cs)
}

impl NameKey {
    /// Whether this key and `other` stand for the same name.
    pub fn collides(&self, other: &NameKey) -> (r: bool)
        ensures
            r == keys_collide(self@, other@),
    {
        if !same_word(&self.first, &other.first) {
            return false;
        }
        match (&self.last, &other.last) {
            (Some(a), Some(b)) => same_word(a, b),
            (None, None) => true,
            _ => false,
        }
    }
}

} // verus!
