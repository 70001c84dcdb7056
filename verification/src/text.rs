//! Texts as sequences of characters, and cutting a text into the words
//! between its white space.

use vstd::prelude::*;
use vstd::string::StrSliceExecFns;

verus! {

/// The texts of `strings`, in the same order.
pub open spec fn texts(strings: Seq<String>) -> Seq<Seq<char>> {
    Seq::new(strings.len(), |i: int| strings[i]@)
}

/// The text of `text`, if there is one.
pub open spec fn text_of(text: Option<String>) -> Option<Seq<char>> {
    match text {
        Some(t) => Some(t@),
        None => None,
    }
}

/// The characters of `text`, one by one.
pub fn chars_of(text: &str) -> (chars: Vec<char>)
    ensures
        chars@ == text@,
{
    let n = text.unicode_len();
    let mut chars: Vec<char> = Vec::new();
    let mut i: usize = 0;
    while i < n
        invariant
            n == text@.len(),
            0 <= i <= n,
            chars@ == text@.take(i as int),
        decreases n - i,
    {
        chars.push(text.get_char(i));
        assert(text@.take(i + 1) =~= text@.take(i as int).push(text@[i as int]));
        i += 1;
    }
    assert(text@.take(n as int) =~= text@);
    chars
}

/// Whether `c` is white space: a character with the Unicode property
/// `White_Space`.
pub open spec fn is_space(c: char) -> bool {
    let u = c as u32;
    ||| 0x09 <= u <= 0x0D
    ||| u == 0x20
    ||| u == 0x85
    ||| u == 0xA0
    ||| u == 0x1680
    ||| 0x2000 <= u <= 0x200A
    ||| u == 0x2028
    ||| u == 0x2029
    ||| u == 0x202F
    ||| u == 0x205F
    ||| u == 0x3000
}

/// Whether `c` is white space.
pub fn is_whitespace(c: char) -> (space: bool)
    ensures
        space == is_space(c),
{
    let u = c as u32;
    (0x09 <= u && u <= 0x0D) || u == 0x20 || u == 0x85 || u == 0xA0 || u == 0x1680 || (0x2000 <= u
        && u <= 0x200A) || u == 0x2028 || u == 0x2029 || u == 0x202F || u == 0x205F || u
        == 0x3000
}

/// The first place in `s` whose character is white space (`space` set) or
/// is not (`space` unset), or the length of `s` if there is none.
pub open spec fn first_place(s: Seq<char>, space: bool) -> int
    decreases s.len(),
{
    if s.len() == 0 {
        0
    } else if is_space(s[0]) == space {
        0
    } else {
        1 + first_place(s.drop_first(), space)
    }
}

/// The words of `s`: its longest runs of characters that are not white
/// space, in their order.
pub open spec fn words(s: Seq<char>) -> Seq<Seq<char>>
    decreases s.len(),
{
    let begin = first_place(s, false);
    if 0 <= begin < s.len() {
        let rest = s.skip(begin);
        let end = first_place(rest, true);
        if 0 < end <= rest.len() {
            seq![rest.take(end)] + words(rest.skip(end))
        } else {
            Seq::empty()
        }
    } else {
        Seq::empty()
    }
}

/// `first_place` finds the first place of its kind.
pub proof fn lemma_first_place(s: Seq<char>, space: bool, k: int)
    requires
        0 <= k <= s.len(),
        forall|j: int| 0 <= j < k ==> is_space(s[j]) != space,
        k < s.len() ==> is_space(s[k]) == space,
    ensures
        first_place(s, space) == k,
    decreases k,
{
    if k > 0 {
        assert(is_space(s[0]) != space);
        let rest = s.drop_first();
        assert forall|j: int| 0 <= j < k - 1 implies is_space(rest[j]) != space by {
            assert(rest[j] == s[j + 1]);
        }
        if k < s.len() {
            assert(rest[k - 1] == s[k]);
        }
        lemma_first_place(rest, space, k - 1);
    }
}

/// The place of the first character of `text` from `from` on that is white
/// space (`space` set) or is not (`space` unset), or the length of `text`.
fn scan(text: &str, from: usize, space: bool) -> (place: usize)
    requires
        from <= text@.len(),
    ensures
        from <= place <= text@.len(),
        place - from == first_place(text@.skip(from as int), space),
{
    let n = text.unicode_len();
    let mut place = from;
    while place < n && is_whitespace(text.get_char(place)) != space
        invariant
            n == text@.len(),
            from <= place <= n,
            forall|j: int| from <= j < place ==> is_space(text@[j]) != space,
        decreases n - place,
    {
        place += 1;
    }
    proof {
        let s = text@.skip(from as int);
        let k = place - from;
        assert forall|j: int| 0 <= j < k implies is_space(s[j]) != space by {
            assert(s[j] == text@[from + j]);
        }
        if k < s.len() {
            assert(s[k] == text@[place as int]);
        }
        lemma_first_place(s, space, k);
    }
    place
}

/// The words of `text`, cut at white space.
pub fn split_whitespace(text: &str) -> (tokens: Vec<String>)
    ensures
        texts(tokens@) == words(text@),
{
    let n = text.unicode_len();
    let mut tokens: Vec<String> = Vec::new();
    let mut at: usize = 0;
    assert(text@.skip(0) =~= text@);
    assert(texts(tokens@) =~= Seq::<Seq<char>>::empty());
    loop
        invariant
            n == text@.len(),
            at <= n,
            words(text@) == texts(tokens@) + words(text@.skip(at as int)),
        ensures
            words(text@) == texts(tokens@),
        decreases n - at,
    {
        let ghost s = text@.skip(at as int);
        let ghost before = texts(tokens@);
        let begin = scan(text, at, false);
        if begin >= n {
            assert(before + Seq::<Seq<char>>::empty() =~= before);
            break ;
        }
        let end = scan(text, begin, true);
        proof {
            let rest = s.skip(begin - at);
            assert(rest =~= text@.skip(begin as int));
            assert(is_space(rest[0]) == false) by {
                lemma_first_place_found(s, false);
                assert(rest[0] == s[begin - at]);
            }
            lemma_first_place_found(rest.drop_first(), true);
            assert(first_place(rest, true) == 1 + first_place(rest.drop_first(), true));
            assert(end > begin);
            assert(rest.take(end - begin) =~= text@.subrange(begin as int, end as int));
            assert(rest.skip(end - begin) =~= text@.skip(end as int));
        }
        let word = text.substring_char(begin, end);
        tokens.push(word.to_owned());
        proof {
            let w = text@.subrange(begin as int, end as int);
            assert(texts(tokens@) =~= before + seq![w]);
            assert(before + (seq![w] + words(text@.skip(end as int))) =~= (before + seq![w])
                + words(text@.skip(end as int)));
        }
        at = end;
    }
    tokens
}

/// What `first_place` finds inside `s` is of the kind asked for.
pub proof fn lemma_first_place_found(s: Seq<char>, space: bool)
    ensures
        0 <= first_place(s, space) <= s.len(),
        first_place(s, space) < s.len() ==> is_space(s[first_place(s, space)]) == space,
    decreases s.len(),
{
    if s.len() > 0 && is_space(s[0]) != space {
        lemma_first_place_found(s.drop_first(), space);
        let k = first_place(s.drop_first(), space);
        if k < s.drop_first().len() {
            assert(s.drop_first()[k] == s[k + 1]);
        }
    }
}

} // verus!
