use vstd::prelude::*;
use vstd::utf8::encode_utf8;
use crate::pattern::{regex_compiles, regex_first_match_end, first_match_end};
use crate::text::{chars_of, string_from, string_of};

verus! {

/// The regular expression that matches one backslash.
pub const BACKSLASH_RE_PAT: &'static str = r"\\";

/// Whether `p` occurs in `s` at position `i`.
pub open spec fn occurs_at(s: Seq<char>, p: Seq<char>, i: int) -> bool {
    0 <= i && i + p.len() <= s.len() && s.subrange(i, i + p.len()) == p
}

/// The first position, from `i` on, where `p` occurs in `s`.
pub open spec fn first_occurrence_from(s: Seq<char>, p: Seq<char>, i: int) -> Option<int>
    decreases s.len() + 1 - i,
{
    if i < 0 || i + p.len() > s.len() {
        None
    } else if occurs_at(s, p, i) {
        Some(i)
    } else {
        first_occurrence_from(s, p, i + 1)
    }
}

/// The first position where `p` occurs in `s` (std's `str::find`, counted in characters).
pub open spec fn first_occurrence(s: Seq<char>, p: Seq<char>) -> Option<int> {
    first_occurrence_from(s, p, 0)
}

/// Whether the first match of the regular expression `n` in `seg` ends where `seg`
/// ends, so that an occurrence right after `seg` counts as escaped.
pub open spec fn ends_escaped(n: Seq<char>, seg: Seq<char>) -> bool {
    regex_compiles(n) && regex_first_match_end(n, seg) == Some(encode_utf8(seg).len() as usize)
}

/// `Replacer::replace`: every occurrence of `p` in `s` is replaced by `r`, except that an
/// occurrence whose preceding text ends with the first match of `n` is kept as it is,
/// and an occurrence at the very start of what is left is dropped.
pub open spec fn replace_escaped(p: Seq<char>, n: Seq<char>, s: Seq<char>, r: Seq<char>) -> Seq<char>
    decreases s.len(),
{
    if p.len() == 0 {
        s
    } else {
        match first_occurrence(s, p) {
            None => s,
            Some(i) => if 0 <= i && i + p.len() <= s.len() {
                let rest = s.skip(i + p.len());
                if i == 0 {
                    replace_escaped(p, n, rest, r)
                } else if ends_escaped(n, s.take(i)) {
                    s.take(i + p.len()) + replace_escaped(p, n, rest, r)
                } else {
                    s.take(i) + r + replace_escaped(p, n, rest, r)
                }
            } else {
                s
            },
        }
    }
}

/// std's `str::replace`: every occurrence of `from`, left to right and without overlap,
/// replaced by `to`.
pub open spec fn replace_all(s: Seq<char>, from: Seq<char>, to: Seq<char>) -> Seq<char>
    decreases s.len(),
{
    if from.len() == 0 {
        s
    } else {
        match first_occurrence(s, from) {
            None => s,
            Some(i) => if 0 <= i && i + from.len() <= s.len() {
                s.take(i) + to + replace_all(s.skip(i + from.len()), from, to)
            } else {
                s
            },
        }
    }
}

/// Whether `p` occurs in `s` at position `i`.
pub fn occurs_at_exec(s: &Vec<char>, p: &Vec<char>, i: usize) -> (r: bool)
    ensures
        r == occurs_at(s@, p@, i as int),
{
    if i > s.len() || p.len() > s.len() - i {
        return false;
    }
    let mut k: usize = 0;
    while k < p.len()
        invariant
            i + p.len() <= s.len(),
            k <= p.len(),
            forall|j: int| 0 <= j < k ==> s@[i + j] == p@[j],
        decreases p.len() - k,
    {
        if s[i + k] != p[k] {
            assert(s@.subrange(i as int, i + p.len())[k as int] != p@[k as int]);
            return false;
        }
        k += 1;
    }
    assert(s@.subrange(i as int, i + p.len()) =~= p@);
    true
}

/// The first position where `p` occurs in `s`.
pub fn find_first(s: &Vec<char>, p: &Vec<char>) -> (r: Option<usize>)
    ensures
        r matches Some(i) ==> first_occurrence(s@, p@) == Some(i as int) && i + p.len() <= s.len(),
        r is None ==> first_occurrence(s@, p@) is None,
{
    let mut i: usize = 0;
    while i <= s.len() && p.len() <= s.len() - i
        invariant
            first_occurrence(s@, p@) == first_occurrence_from(s@, p@, i as int),
        decreases s.len() + 1 - i,
    {
        if occurs_at_exec(s, p, i) {
            return Some(i);
        }
        if i == s.len() {
            assert(first_occurrence_from(s@, p@, i + 1) is None);
            return None;
        }
        i += 1;
    }
    None
}

/// The characters `s[from..to]`.
pub fn sub_chars(s: &Vec<char>, from: usize, to: usize) -> (r: Vec<char>)
    requires
        from <= to <= s.len(),
    ensures
        r@ == s@.subrange(from as int, to as int),
{
    let mut r = Vec::new();
    let mut i = from;
    while i < to
        invariant
            from <= i <= to <= s.len(),
            r@ == s@.subrange(from as int, i as int),
        decreases to - i,
    {
        r.push(s[i]);
        i += 1;
    }
    r
}

/// Appends `s[from..to]` to `out`.
pub fn push_range(out: &mut Vec<char>, s: &Vec<char>, from: usize, to: usize)
    requires
        from <= to <= s.len(),
    ensures
        final(out)@ == old(out)@ + s@.subrange(from as int, to as int),
{
    let mut i = from;
    while i < to
        invariant
            from <= i <= to <= s.len(),
            out@ == old(out)@ + s@.subrange(from as int, i as int),
        decreases to - i,
    {
        out.push(s[i]);
        i += 1;
        assert(s@.subrange(from as int, i as int) =~= s@.subrange(from as int, i - 1).push(s@[i - 1]));
    }
}

/// `str::replace` on characters.
pub fn replace_all_chars(s: &Vec<char>, from: &Vec<char>, to: &Vec<char>) -> (r: Vec<char>)
    requires
        from.len() > 0,
    ensures
        r@ == replace_all(s@, from@, to@),
{
    let mut rem = sub_chars(s, 0, s.len());
    let mut out: Vec<char> = Vec::new();
    assert(s@.subrange(0, s.len() as int) =~= s@);
    loop
        invariant
            from.len() > 0,
            out@ + replace_all(rem@, from@, to@) == replace_all(s@, from@, to@),
        decreases rem.len(),
    {
        match find_first(&rem, from) {
            None => {
                let n = rem.len();
                push_range(&mut out, &rem, 0, n);
                assert(rem@.subrange(0, n as int) =~= rem@);
                return out;
            },
            Some(i) => {
                let ghost old_out = out@;
                let ghost old_rem = rem@;
                push_range(&mut out, &rem, 0, i);
                push_range(&mut out, to, 0, to.len());
                let n = rem.len();
                let rest = sub_chars(&rem, i + from.len(), n);
                rem = rest;
                assert(to@.subrange(0, to.len() as int) =~= to@);
                assert(old_rem.subrange(0, i as int) =~= old_rem.take(i as int));
                assert(old_rem.subrange(i + from.len(), n as int) =~= old_rem.skip(i + from.len()));
                assert(replace_all(old_rem, from@, to@) == old_rem.take(i as int) + to@ + replace_all(rem@, from@, to@));
                assert(out@ == old_out + old_rem.take(i as int) + to@);
                assert(out@ + replace_all(rem@, from@, to@) =~= old_out + replace_all(old_rem, from@, to@));
            },
        }
    }
}

/// Rewrites escape sequences in strings.
pub struct Replacer {
    /// The pattern of the regular expression that matches a backslash.
    #[allow(non_snake_case)]
    pub BACKSLASH: String,
}

impl Replacer {
    /// A replacer whose backslash pattern is `\\`.
    pub fn new() -> (r: Replacer)
        ensures
            r.BACKSLASH@ == BACKSLASH_RE_PAT@,
    {
        Replacer { BACKSLASH: BACKSLASH_RE_PAT.to_owned() }
    }

    /// Replaces each occurrence of `p` in `s` by `r`, unless the text before it ends with
    /// the first match of the pattern `n` (then the occurrence is kept); an occurrence
    /// at the very start of what is left of `s` is dropped.
    pub fn replace(&self, p: &str, n: &str, s: String, r: &str) -> (res: String)
        requires
            p@.len() > 0,
        ensures
            res@ == replace_escaped(p@, n@, s@, r@),
    {
        let pv = chars_of(p);
        let rv = chars_of(r);
        let mut rem = chars_of(s.as_str());
        let mut out: Vec<char> = Vec::new();
        loop
            invariant
                pv@ == p@,
                pv.len() > 0,
                rv@ == r@,
                out@ + replace_escaped(p@, n@, rem@, r@) == replace_escaped(p@, n@, s@, r@),
            decreases rem.len(),
        {
            match find_first(&rem, &pv) {
                None => {
                    let len = rem.len();
                    push_range(&mut out, &rem, 0, len);
                    assert(rem@.subrange(0, len as int) =~= rem@);
                    return string_of(&out);
                },
                Some(i) => {
                    let ghost old_out = out@;
                    let ghost old_rem = rem@;
                    let len = rem.len();
                    if i != 0 {
                        let seg = string_from(&rem, 0, i);
                        let escaped = match first_match_end(n, seg.as_str()) {
                            Some(e) => e == seg.as_str().len(),
                            None => false,
                        };
                        assert(old_rem.subrange(0, i as int) =~= old_rem.take(i as int));
                        if escaped {
                            push_range(&mut out, &rem, 0, i + pv.len());
                            assert(old_rem.subrange(0, i + pv.len()) =~= old_rem.take(i + pv.len()));
                        } else {
                            push_range(&mut out, &rem, 0, i);
                            push_range(&mut out, &rv, 0, rv.len());
                            assert(rv@.subrange(0, rv.len() as int) =~= rv@);
                        }
                    }
                    let rest = sub_chars(&rem, i + pv.len(), len);
                    rem = rest;
                    assert(old_rem.subrange(i + pv.len(), len as int) =~= old_rem.skip(i + p@.len()));
                    proof {
                        let rr = replace_escaped(p@, n@, rem@, r@);
                        if i == 0 {
                            assert(replace_escaped(p@, n@, old_rem, r@) == rr);
                            assert(out@ == old_out);
                        } else if ends_escaped(n@, old_rem.take(i as int)) {
                            assert(replace_escaped(p@, n@, old_rem, r@) == old_rem.take(i + p@.len()) + rr);
                            assert(out@ == old_out + old_rem.take(i + p@.len()));
                        } else {
                            assert(replace_escaped(p@, n@, old_rem, r@) == old_rem.take(i as int) + r@ + rr);
                            assert(out@ == old_out + old_rem.take(i as int) + r@);
                        }
                    }
                    assert(out@ + replace_escaped(p@, n@, rem@, r@) =~= old_out + replace_escaped(p@, n@, old_rem, r@));
                },
            }
        }
    }
}

} // verus!
