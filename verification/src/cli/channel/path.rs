//! Paths of channels: a path is cut at each `/` into segments, as a path of
//! the file system is.

use crate::text::texts;
use vstd::prelude::*;
use vstd::string::StrSliceExecFns;

verus! {

/// The place of the first `/` in `s`, or the length of `s` if it has none.
pub open spec fn first_slash(s: Seq<char>) -> int
    decreases s.len(),
{
    if s.len() == 0 {
        0
    } else if s[0] == '/' {
        0
    } else {
        1 + first_slash(s.drop_first())
    }
}

/// The names in `s`: the pieces between its `/`s, in their order, without
/// the empty ones and without those that are a single `.`; only a `.` that
/// begins the whole path stays (`first` tells whether `s` begins it).
pub open spec fn names_from(s: Seq<char>, first: bool) -> Seq<Seq<char>>
    decreases s.len(),
{
    let end = first_slash(s);
    let piece = s.take(end);
    let kept = if piece.len() == 0 || (piece == "."@ && !first) {
        Seq::empty()
    } else {
        seq![piece]
    };
    if 0 <= end < s.len() {
        kept + names_from(s.skip(end + 1), false)
    } else {
        kept
    }
}

/// The segments of the path `s`: `/` if it begins with one, then its names.
pub open spec fn path_segments(s: Seq<char>) -> Seq<Seq<char>> {
    if s.len() > 0 && s[0] == '/' {
        seq!["/"@] + names_from(s.skip(1), false)
    } else {
        names_from(s, true)
    }
}

/// `first_slash` finds the first `/`.
pub proof fn lemma_first_slash(s: Seq<char>, k: int)
    requires
        0 <= k <= s.len(),
        forall|j: int| 0 <= j < k ==> s[j] != '/',
        k < s.len() ==> s[k] == '/',
    ensures
        first_slash(s) == k,
    decreases k,
{
    if k > 0 {
        assert(s[0] != '/');
        let rest = s.drop_first();
        assert forall|j: int| 0 <= j < k - 1 implies rest[j] != '/' by {
            assert(rest[j] == s[j + 1]);
        }
        if k < s.len() {
            assert(rest[k - 1] == s[k]);
        }
        lemma_first_slash(rest, k - 1);
    }
}

/// Cuts `path` into its segments.
pub fn split_path(path: &str) -> (segments: Vec<String>)
    ensures
        texts(segments@) == path_segments(path@),
{
    let n = path.unicode_len();
    let mut segments: Vec<String> = Vec::new();
    let mut start: usize = 0;
    let mut first = true;
    if n > 0 && path.get_char(0) == '/' {
        segments.push("/".to_owned());
        start = 1;
        first = false;
        assert(texts(segments@) =~= seq!["/"@]);
        assert(path@.skip(1) =~= path@.skip(start as int));
    } else {
        assert(texts(segments@) =~= Seq::<Seq<char>>::empty());
        assert(path@.skip(0) =~= path@);
    }
    let mut done = false;
    while !done
        invariant
            n == path@.len(),
            start <= n,
            !done ==> path_segments(path@) == texts(segments@) + names_from(
                path@.skip(start as int),
                first,
            ),
            done ==> path_segments(path@) == texts(segments@),
        decreases n - start + (if done { 0int } else { 1int }),
    {
        let mut end = start;
        while end < n && path.get_char(end) != '/'
            invariant
                n == path@.len(),
                start <= end <= n,
                forall|j: int| start <= j < end ==> path@[j] != '/',
            decreases n - end,
        {
            end += 1;
        }
        let ghost s = path@.skip(start as int);
        let ghost k = end - start;
        proof {
            assert forall|j: int| 0 <= j < k implies s[j] != '/' by {
                assert(s[j] == path@[start + j]);
            }
            if k < s.len() {
                assert(s[k] == path@[end as int]);
            }
            lemma_first_slash(s, k);
            assert(s.take(k) =~= path@.subrange(start as int, end as int));
            reveal_strlit(".");
        }
        let is_dot = end - start == 1 && path.get_char(start) == '.';
        let ghost before = texts(segments@);
        let ghost piece = path@.subrange(start as int, end as int);
        proof {
            if is_dot {
                assert(piece =~= "."@);
            } else if piece == "."@ {
                assert(piece.len() == 1);
                assert(piece[0] == '.');
            }
        }
        if end > start && !(is_dot && !first) {
            let name = path.substring_char(start, end);
            segments.push(name.to_owned());
            assert(texts(segments@) =~= before + seq![piece]);
        } else {
            assert(texts(segments@) =~= before + Seq::<Seq<char>>::empty());
        }
        if end < n {
            proof {
                assert(s.skip(k + 1) =~= path@.skip(end + 1));
                let kept = if piece.len() == 0 || (piece == "."@ && !first) {
                    Seq::<Seq<char>>::empty()
                } else {
                    seq![piece]
                };
                assert(names_from(s, first) == kept + names_from(s.skip(k + 1), false));
                assert(before + (kept + names_from(s.skip(k + 1), false)) =~= (before + kept)
                    + names_from(s.skip(k + 1), false));
            }
            start = end + 1;
            first = false;
        } else {
            done = true;
        }
    }
    segments
}

} // verus!
