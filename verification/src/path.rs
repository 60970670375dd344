//! Path handling: splitting on `/`, collapsing `.` and `..`, joining,
//! and the prefix decomposition used by recursive `mkdir`.
//!
//! Every executable function is specified against a small recursive
//! specification over sequences of characters, so the filesystem's
//! contracts can speak about paths mathematically.

use vstd::prelude::*;
use vstd::string::StrSliceExecFns;
use crate::ext::chars_to_string;

verus! {

/// The root path, `/`, as a sequence of characters.
pub open spec fn root_path() -> Seq<char> {
    seq!['/']
}

/// Splits `s` on `/`, keeping empty segments, with `cur` the segment read
/// so far. Splitting always yields at least one segment.
pub open spec fn split_acc(s: Seq<char>, cur: Seq<char>) -> Seq<Seq<char>>
    decreases s.len(),
{
    if s.len() == 0 {
        seq![cur]
    } else if s[0] == '/' {
        seq![cur] + split_acc(s.drop_first(), Seq::<char>::empty())
    } else {
        split_acc(s.drop_first(), cur.push(s[0]))
    }
}

/// The segments of a path: what splitting on `/` yields.
pub open spec fn path_segments(s: Seq<char>) -> Seq<Seq<char>> {
    split_acc(s, Seq::<char>::empty())
}

/// One step of normalization folding: empty segments and `.` are dropped,
/// `..` pops the segment collected last, anything else is kept.
pub open spec fn norm_acc(segs: Seq<Seq<char>>, acc: Seq<Seq<char>>) -> Seq<Seq<char>>
    decreases segs.len(),
{
    if segs.len() == 0 {
        acc
    } else {
        let sg = segs[0];
        if sg == Seq::<char>::empty() || sg == seq!['.'] {
            norm_acc(segs.drop_first(), acc)
        } else if sg == seq!['.', '.'] {
            norm_acc(segs.drop_first(), if acc.len() > 0 { acc.drop_last() } else { acc })
        } else {
            norm_acc(segs.drop_first(), acc.push(sg))
        }
    }
}

/// The segments of a path after collapsing `.`, `..` and empty segments.
pub open spec fn norm_segments(s: Seq<char>) -> Seq<Seq<char>> {
    norm_acc(path_segments(s), Seq::<Seq<char>>::empty())
}

/// Joins segments with `/` between them (no leading separator).
pub open spec fn join_acc(segs: Seq<Seq<char>>) -> Seq<char>
    decreases segs.len(),
{
    if segs.len() == 0 {
        Seq::<char>::empty()
    } else if segs.len() == 1 {
        segs[0]
    } else {
        join_acc(segs.drop_last()) + seq!['/'] + segs.last()
    }
}

/// What `path_normalize` returns: `.` and `..` alone map to `/`; otherwise
/// the collapsed segments are re-joined, an empty result becomes `/`, and a
/// leading `/` of the input is preserved.
pub open spec fn normalize_spec(p: Seq<char>) -> Seq<char> {
    if p == seq!['.'] || p == seq!['.', '.'] {
        root_path()
    } else {
        let joined = join_acc(norm_segments(p));
        let base = if joined.len() == 0 {
            root_path()
        } else {
            joined
        };
        if p.len() > 0 && p[0] == '/' && base[0] != '/' {
            seq!['/'] + base
        } else {
            base
        }
    }
}

/// The canonical storage key of a path: normalized and absolute, since the
/// store resolves every path against the root.
pub open spec fn canon_spec(p: Seq<char>) -> Seq<char> {
    let n = normalize_spec(p);
    if n.len() > 0 && n[0] == '/' {
        n
    } else {
        seq!['/'] + n
    }
}

/// Canonicalizes a path: normalizes it and roots a relative result.
pub fn path_canon(path: &str) -> (r: String)
    ensures
        r@ == canon_spec(path@),
{
    let cs = str_chars(path);
    let mut out = normalize_chars(&cs);
    proof {
        lemma_normalize_nonempty(cs@);
    }
    if out[0] != '/' {
        let ghost pre = out@;
        out.insert(0, '/');
        proof {
            assert(out@ =~= seq!['/'] + pre);
        }
    }
    chars_to_string(&out)
}

/// Normalization never yields the empty path.
pub proof fn lemma_normalize_nonempty(p: Seq<char>)
    ensures
        normalize_spec(p).len() > 0,
{
    if !(p == seq!['.'] || p == seq!['.', '.']) {
        let joined = join_acc(norm_segments(p));
        if joined.len() == 0 {
        }
    }
}

/// The final segment of a path; empty when the path ends in `/`.
pub open spec fn basename_spec(p: Seq<char>) -> Seq<char> {
    path_segments(p).last()
}

/// The path with its final segment removed; `/` stays `/`, and an empty
/// remainder becomes `/`.
pub open spec fn dirname_spec(p: Seq<char>) -> Seq<char> {
    if p == root_path() {
        root_path()
    } else {
        let j = join_acc(path_segments(p).drop_last());
        if j.len() == 0 {
            root_path()
        } else {
            j
        }
    }
}

/// The cumulative absolute prefixes of the non-empty segments: `cur` is the
/// prefix built so far, and each non-empty segment extends it by `/` and
/// the segment.
pub open spec fn cum_acc(segs: Seq<Seq<char>>, cur: Seq<char>) -> Seq<Seq<char>>
    decreases segs.len(),
{
    if segs.len() == 0 {
        Seq::<Seq<char>>::empty()
    } else if segs[0].len() == 0 {
        cum_acc(segs.drop_first(), cur)
    } else {
        let np = cur + seq!['/'] + segs[0];
        seq![np] + cum_acc(segs.drop_first(), np)
    }
}

/// What `path_split` returns: the chain of prefixes ending in the path
/// itself, one per non-empty component.
pub open spec fn path_split_spec(p: Seq<char>) -> Seq<Seq<char>> {
    cum_acc(path_segments(p), Seq::<char>::empty())
}

/// Character-for-character equality of two string slices.
pub fn str_eq(a: &str, b: &str) -> (r: bool)
    ensures
        r == (a@ == b@),
{
    let na: usize = a.unicode_len();
    let nb: usize = b.unicode_len();
    if na != nb {
        proof {
            if a@ == b@ {
                assert(a@.len() == b@.len());
            }
        }
        return false;
    }
    let mut i: usize = 0;
    while i < na
        invariant
            i <= na,
            na == a@.len(),
            na == b@.len(),
            forall|j: int| 0 <= j < i ==> a@[j] == b@[j],
        decreases na - i,
    {
        if a.get_char(i) != b.get_char(i) {
            return false;
        }
        i += 1;
    }
    proof {
        assert(a@ =~= b@);
    }
    true
}

/// True when `a` begins with `b`, character for character.
pub fn str_starts_with(a: &str, b: &str) -> (r: bool)
    ensures
        r == b@.is_prefix_of(a@),
{
    let na: usize = a.unicode_len();
    let nb: usize = b.unicode_len();
    if nb > na {
        proof {
            if b@.is_prefix_of(a@) {
                assert(b@.len() <= a@.len());
            }
        }
        return false;
    }
    let mut i: usize = 0;
    while i < nb
        invariant
            i <= nb,
            nb <= na,
            na == a@.len(),
            nb == b@.len(),
            forall|j: int| 0 <= j < i ==> a@[j] == b@[j],
        decreases nb - i,
    {
        if a.get_char(i) != b.get_char(i) {
            proof {
                if b@.is_prefix_of(a@) {
                    assert(a@.subrange(0, nb as int)[i as int] == b@[i as int]);
                }
            }
            return false;
        }
        i += 1;
    }
    proof {
        assert(a@.subrange(0, nb as int) =~= b@);
    }
    true
}

/// The characters of a string slice, as a vector.
pub fn str_chars(s: &str) -> (r: Vec<char>)
    ensures
        r@ == s@,
{
    let n: usize = s.unicode_len();
    let mut r: Vec<char> = Vec::new();
    let mut i: usize = 0;
    while i < n
        invariant
            i <= n,
            n == s@.len(),
            r@ == s@.subrange(0, i as int),
        decreases n - i,
    {
        r.push(s.get_char(i));
        proof {
            assert(s@.subrange(0, i + 1) =~= s@.subrange(0, i as int).push(s@[i as int]));
        }
        i += 1;
    }
    proof {
        assert(s@.subrange(0, n as int) =~= s@);
    }
    r
}

/// Splits a vector of characters on `/`, keeping empty segments.
pub fn split_chars(s: &Vec<char>) -> (r: Vec<Vec<char>>)
    ensures
        r.deep_view() == path_segments(s@),
{
    let n: usize = s.len();
    let mut done: Vec<Vec<char>> = Vec::new();
    let mut cur: Vec<char> = Vec::new();
    let mut i: usize = 0;
    proof {
        assert(s@.subrange(0, n as int) =~= s@);
        assert(done.deep_view() =~= Seq::<Seq<char>>::empty());
        assert(done.deep_view() + split_acc(s@, Seq::<char>::empty()) =~~= path_segments(s@));
    }
    while i < n
        invariant
            i <= n,
            n == s@.len(),
            path_segments(s@) == done.deep_view() + split_acc(
                s@.subrange(i as int, n as int),
                cur@,
            ),
        decreases n - i,
    {
        proof {
            assert(s@.subrange(i as int, n as int).drop_first() =~= s@.subrange(
                i + 1,
                n as int,
            ));
            assert(s@.subrange(i as int, n as int)[0] == s@[i as int]);
        }
        if s[i] == '/' {
            let ghost prev = done.deep_view();
            let ghost curv = cur@;
            done.push(cur);
            cur = Vec::new();
            proof {
                assert(done.deep_view() =~~= prev.push(curv));
                assert(prev + (seq![curv] + split_acc(
                    s@.subrange(i + 1, n as int),
                    Seq::<char>::empty(),
                )) =~~= prev.push(curv) + split_acc(
                    s@.subrange(i + 1, n as int),
                    Seq::<char>::empty(),
                ));
            }
        } else {
            cur.push(s[i]);
        }
        i += 1;
    }
    proof {
        assert(s@.subrange(n as int, n as int) =~= Seq::<char>::empty());
    }
    let ghost prev = done.deep_view();
    let ghost curv = cur@;
    done.push(cur);
    proof {
        assert(done.deep_view() =~~= prev.push(curv));
        assert(prev + seq![curv] =~= prev.push(curv));
    }
    done
}

/// Collapses `.`, `..` and empty segments out of a segment list.
fn norm_chars(segs: Vec<Vec<char>>) -> (r: Vec<Vec<char>>)
    ensures
        r.deep_view() == norm_acc(segs.deep_view(), Seq::<Seq<char>>::empty()),
{
    let n: usize = segs.len();
    let ghost all = segs.deep_view();
    let mut acc: Vec<Vec<char>> = Vec::new();
    let mut i: usize = 0;
    proof {
        assert(all.subrange(0, n as int) =~= all);
        assert(acc.deep_view() =~= Seq::<Seq<char>>::empty());
    }
    while i < n
        invariant
            i <= n,
            n == segs@.len(),
            all == segs.deep_view(),
            norm_acc(all, Seq::<Seq<char>>::empty()) == norm_acc(
                all.subrange(i as int, n as int),
                acc.deep_view(),
            ),
        decreases n - i,
    {
        proof {
            assert(all.subrange(i as int, n as int).drop_first() =~= all.subrange(i + 1, n as int));
            assert(all.subrange(i as int, n as int)[0] == all[i as int]);
            assert(all[i as int] =~= segs@[i as int]@);
        }
        let sg = &segs[i];
        let is_empty = sg.len() == 0;
        let is_dot = sg.len() == 1 && sg[0] == '.';
        let is_dotdot = sg.len() == 2 && sg[0] == '.' && sg[1] == '.';
        proof {
            if is_empty {
                assert(all[i as int] =~= Seq::<char>::empty());
            }
            if is_dot {
                assert(all[i as int] =~= seq!['.']);
            }
            if is_dotdot {
                assert(all[i as int] =~= seq!['.', '.']);
            }
        }
        if is_empty || is_dot {
            // segment dropped
        } else if is_dotdot {
            let ghost prev = acc.deep_view();
            if acc.len() > 0 {
                acc.pop();
                proof {
                    assert(acc.deep_view() =~~= prev.drop_last());
                }
            }
        } else {
            proof {
                if all[i as int] == Seq::<char>::empty() {
                    assert(is_empty);
                }
                if all[i as int] == seq!['.'] {
                    assert(all[i as int].len() == 1 && all[i as int][0] == '.');
                }
                if all[i as int] == seq!['.', '.'] {
                    assert(all[i as int].len() == 2 && all[i as int][0] == '.' && all[i as int][1]
                        == '.');
                }
            }
            let ghost prev = acc.deep_view();
            let sgc = segs[i].clone();
            proof {
                assert(sgc@ =~= all[i as int]);
            }
            acc.push(sgc);
            proof {
                assert(acc.deep_view() =~~= prev.push(all[i as int]));
            }
        }
        i += 1;
    }
    proof {
        assert(all.subrange(n as int, n as int) =~= Seq::<Seq<char>>::empty());
    }
    acc
}

/// Joins segments with `/` between them.
fn join_chars(segs: &Vec<Vec<char>>) -> (r: Vec<char>)
    ensures
        r@ == join_acc(segs.deep_view()),
{
    let n: usize = segs.len();
    let ghost all = segs.deep_view();
    let mut r: Vec<char> = Vec::new();
    let mut i: usize = 0;
    proof {
        assert(all.subrange(0, 0) =~= Seq::<Seq<char>>::empty());
    }
    while i < n
        invariant
            i <= n,
            n == segs@.len(),
            all == segs.deep_view(),
            r@ == join_acc(all.subrange(0, i as int)),
        decreases n - i,
    {
        proof {
            assert(all.subrange(0, i + 1).drop_last() =~= all.subrange(0, i as int));
            assert(all.subrange(0, i + 1).last() == all[i as int]);
            assert(all[i as int] =~= segs@[i as int]@);
        }
        if i > 0 {
            r.push('/');
        }
        r.extend_from_slice(segs[i].as_slice());
        proof {
            if i == 0 {
                assert(r@ =~= all[0]);
            } else {
                assert(r@ =~= join_acc(all.subrange(0, i as int)) + seq!['/'] + all[i as int]);
            }
        }
        i += 1;
    }
    proof {
        assert(all.subrange(0, n as int) =~= all);
    }
    r
}

/// Normalizes a path given as characters; see `normalize_spec`.
fn normalize_chars(cs: &Vec<char>) -> (r: Vec<char>)
    ensures
        r@ == normalize_spec(cs@),
{
    let is_dot = cs.len() == 1 && cs[0] == '.';
    let is_dotdot = cs.len() == 2 && cs[0] == '.' && cs[1] == '.';
    proof {
        if is_dot {
            assert(cs@ =~= seq!['.']);
        }
        if is_dotdot {
            assert(cs@ =~= seq!['.', '.']);
        }
        if cs@ == seq!['.'] {
            assert(cs@.len() == 1 && cs@[0] == '.');
        }
        if cs@ == seq!['.', '.'] {
            assert(cs@.len() == 2 && cs@[0] == '.' && cs@[1] == '.');
        }
    }
    if is_dot || is_dotdot {
        let r = vec!['/'];
        proof {
            assert(r@ =~= root_path());
        }
        return r;
    }
    let segs = split_chars(cs);
    let normed = norm_chars(segs);
    let mut joined = join_chars(&normed);
    if joined.len() == 0 {
        joined = vec!['/'];
        proof {
            assert(joined@ =~= root_path());
        }
    }
    if cs.len() > 0 && cs[0] == '/' && joined[0] != '/' {
        let ghost pre = joined@;
        joined.insert(0, '/');
        proof {
            assert(joined@ =~= seq!['/'] + pre);
        }
    }
    joined
}

/// Normalizes a path: collapses `.`, `..` and empty segments, keeps a
/// leading `/`, and maps `.` and `..` alone to `/`.
pub fn path_normalize(path: &str) -> (r: String)
    ensures
        r@ == normalize_spec(path@),
{
    let cs = str_chars(path);
    let out = normalize_chars(&cs);
    chars_to_string(&out)
}

/// The final path component; the empty string when the path ends in `/`.
pub fn path_basename(path: &str) -> (r: String)
    ensures
        r@ == basename_spec(path@),
{
    let cs = str_chars(path);
    let segs = split_chars(&cs);
    proof {
        assert(segs.deep_view().len() > 0) by {
            lemma_split_acc_len(cs@, Seq::<char>::empty());
        }
        assert(segs.deep_view()[segs@.len() - 1] =~= segs@[segs@.len() - 1]@);
    }
    let last = &segs[segs.len() - 1];
    chars_to_string(last)
}

/// The path with its final component removed; `/` when nothing remains.
pub fn path_dirname(path: &str) -> (r: String)
    ensures
        r@ == dirname_spec(path@),
{
    if str_eq(path, "/") {
        proof {
            reveal_strlit("/");
            assert("/"@ =~= root_path());
        }
        let r = vec!['/'];
        proof {
            assert(r@ =~= root_path());
        }
        return chars_to_string(&r);
    }
    proof {
        reveal_strlit("/");
        assert(root_path() =~= "/"@);
    }
    let cs = str_chars(path);
    let mut segs = split_chars(&cs);
    proof {
        assert(segs.deep_view().len() > 0) by {
            lemma_split_acc_len(cs@, Seq::<char>::empty());
        }
    }
    let ghost whole = segs.deep_view();
    segs.pop();
    proof {
        assert(segs.deep_view() =~~= whole.drop_last());
    }
    let mut joined = join_chars(&segs);
    if joined.len() == 0 {
        joined = vec!['/'];
        proof {
            assert(joined@ =~= root_path());
        }
    }
    chars_to_string(&joined)
}

/// Splitting always yields at least one segment.
pub proof fn lemma_split_acc_len(s: Seq<char>, cur: Seq<char>)
    ensures
        split_acc(s, cur).len() >= 1,
    decreases s.len(),
{
    if s.len() == 0 {
    } else if s[0] == '/' {
    } else {
        lemma_split_acc_len(s.drop_first(), cur.push(s[0]));
    }
}

/// The chain of absolute prefixes of a path, one per non-empty component:
/// for `/a/b/c` the chain is `/a`, `/a/b`, `/a/b/c`.
pub fn path_split(path: &str) -> (r: Vec<String>)
    ensures
        r.deep_view() == path_split_spec(path@),
{
    let cs = str_chars(path);
    let segs = split_chars(&cs);
    let ghost all = segs.deep_view();
    let n: usize = segs.len();
    let mut out: Vec<String> = Vec::new();
    let mut cur: Vec<char> = Vec::new();
    let mut i: usize = 0;
    proof {
        assert(all.subrange(0, n as int) =~= all);
        assert(out.deep_view() =~= Seq::<Seq<char>>::empty());
        assert(out.deep_view() + cum_acc(all, cur@) =~~= path_split_spec(path@));
    }
    while i < n
        invariant
            i <= n,
            n == segs@.len(),
            all == segs.deep_view(),
            path_split_spec(path@) == out.deep_view() + cum_acc(
                all.subrange(i as int, n as int),
                cur@,
            ),
        decreases n - i,
    {
        proof {
            assert(all.subrange(i as int, n as int).drop_first() =~= all.subrange(i + 1, n as int));
            assert(all.subrange(i as int, n as int)[0] == all[i as int]);
            assert(all[i as int] =~= segs@[i as int]@);
        }
        if segs[i].len() > 0 {
            let ghost prevc = cur@;
            cur.push('/');
            cur.extend_from_slice(segs[i].as_slice());
            proof {
                assert(cur@ =~= prevc + seq!['/'] + all[i as int]);
            }
            let ghost prev = out.deep_view();
            let s = chars_to_string(&cur);
            out.push(s);
            proof {
                assert(out.deep_view() =~~= prev.push(cur@));
                assert(prev + (seq![cur@] + cum_acc(all.subrange(i + 1, n as int), cur@)) =~~= prev.push(
                    cur@,
                ) + cum_acc(all.subrange(i + 1, n as int), cur@));
            }
        }
        i += 1;
    }
    proof {
        assert(all.subrange(n as int, n as int) =~= Seq::<Seq<char>>::empty());
    }
    out
}


/// The value of a digit character in radices up to 16; 16 marks anything
/// that is no digit.
pub open spec fn digit_val(c: char) -> int {
    if 48 <= c as u32 && c as u32 <= 57 {
        c as u32 - 48
    } else if 97 <= c as u32 && c as u32 <= 102 {
        c as u32 - 87
    } else if 65 <= c as u32 && c as u32 <= 70 {
        c as u32 - 55
    } else {
        16
    }
}

/// Every character is a digit of the radix, and there is at least one.
pub open spec fn valid_radix(s: Seq<char>, r: int) -> bool {
    s.len() > 0 && forall|i: int| 0 <= i < s.len() ==> 0 <= #[trigger] digit_val(s[i]) < r
}

/// The number the digit string denotes in the radix.
pub open spec fn radix_value(s: Seq<char>, r: int) -> int
    decreases s.len(),
{
    if s.len() == 0 {
        0
    } else {
        radix_value(s.drop_last(), r) * r + digit_val(s.last())
    }
}

/// A valid digit string's value is nonnegative and at least the value of
/// any of its prefixes.
pub proof fn lemma_radix_prefix(s: Seq<char>, i: int, r: int)
    requires
        2 <= r <= 16,
        0 <= i <= s.len(),
        forall|j: int| 0 <= j < s.len() ==> 0 <= #[trigger] digit_val(s[j]) < r,
    ensures
        0 <= radix_value(s.take(i), r) <= radix_value(s, r),
    decreases s.len(),
{
    if s.len() == 0 {
        assert(s.take(i) =~= s);
    } else if i == s.len() {
        assert(s.take(i) =~= s);
        lemma_radix_prefix(s.drop_last(), i - 1, r);
        assert(s.drop_last().take(i - 1) =~= s.drop_last());
        assert(radix_value(s.drop_last(), r) * r + digit_val(s.last()) >= 0) by (nonlinear_arith)
            requires
                radix_value(s.drop_last(), r) >= 0,
                r >= 2,
                digit_val(s.last()) >= 0,
        ;
    } else {
        assert(forall|j: int| 0 <= j < s.drop_last().len() ==> 0 <= #[trigger] digit_val(
            s.drop_last()[j],
        ) < r);
        lemma_radix_prefix(s.drop_last(), i, r);
        assert(s.take(i) =~= s.drop_last().take(i));
        assert(radix_value(s.drop_last(), r) * r + digit_val(s.last()) >= radix_value(
            s.drop_last(),
            r,
        )) by (nonlinear_arith)
            requires
                radix_value(s.drop_last(), r) >= 0,
                r >= 2,
                digit_val(s.last()) >= 0,
        ;
    }
}

/// Parses the digits of `cs` from `start` on in the radix; `None` on an
/// empty or invalid digit string or a value past the `u32` range.
pub(crate) fn parse_radix(cs: &Vec<char>, start: usize, r: u32) -> (out: Option<u32>)
    requires
        start <= cs@.len(),
        2 <= r <= 16,
    ensures
        (match out {
            Option::Some(v) => valid_radix(cs@.skip(start as int), r as int) && v == radix_value(
                cs@.skip(start as int),
                r as int,
            ),
            Option::None => !valid_radix(cs@.skip(start as int), r as int) || radix_value(
                cs@.skip(start as int),
                r as int,
            ) > u32::MAX,
        }),
{
    let ghost s = cs@.skip(start as int);
    let n = cs.len();
    if start == n {
        return None;
    }
    let mut acc: u32 = 0;
    let mut i: usize = start;
    while i < n
        invariant
            start <= i <= n,
            start < n,
            n == cs@.len(),
            2 <= r <= 16,
            s == cs@.skip(start as int),
            forall|j: int| 0 <= j < i - start ==> 0 <= #[trigger] digit_val(s[j]) < r,
            acc == radix_value(s.take(i - start), r as int),
        decreases n - i,
    {
        let c = cs[i];
        let cv: u32 = c as u32;
        let d: u32 = if cv >= 48 && cv <= 57 {
            cv - 48
        } else if cv >= 97 && cv <= 102 {
            cv - 87
        } else if cv >= 65 && cv <= 70 {
            cv - 55
        } else {
            16
        };
        proof {
            assert(s[i - start] == cs@[i as int]);
            assert(d == digit_val(s[i - start]) || (d == 16 && digit_val(s[i - start]) >= 16));
        }
        if d >= r {
            return None;
        }
        if acc > (u32::MAX - d) / r {
            proof {
                if valid_radix(s, r as int) {
                    lemma_radix_prefix(s, i - start + 1, r as int);
                    assert(s.take(i - start + 1).drop_last() =~= s.take(i - start));
                    assert(s.take(i - start + 1).last() == s[i - start]);
                    assert(radix_value(s.take(i - start + 1), r as int) == acc * (r as int) + d);
                    assert(acc * (r as int) + d > u32::MAX) by (nonlinear_arith)
                        requires
                            acc > (u32::MAX - d) / (r as int),
                            2 <= r <= 16,
                            0 <= d < r,
                            acc >= 0,
                    ;
                }
            }
            return None;
        }
        proof {
            assert(acc * r + d <= u32::MAX) by (nonlinear_arith)
                requires
                    acc <= (u32::MAX - d) / (r as int),
                    2 <= r <= 16,
                    0 <= d < r,
                    acc >= 0,
            ;
            assert(s.take(i - start + 1).drop_last() =~= s.take(i - start));
            assert(s.take(i - start + 1).last() == s[i - start]);
        }
        acc = acc * r + d;
        i += 1;
    }
    proof {
        assert(s.take(n - start) =~= s);
    }
    Some(acc)
}

/// What a textual mode denotes: `0o`, `0x` and `0b` prefixes pick octal,
/// hex or binary; anything else reads as octal.
pub open spec fn spec_parse_mode(s: Seq<char>) -> int {
    if s.len() >= 2 && s[0] == '0' && s[1] == 'o' {
        radix_value(s.skip(2), 8)
    } else if s.len() >= 2 && s[0] == '0' && s[1] == 'x' {
        radix_value(s.skip(2), 16)
    } else if s.len() >= 2 && s[0] == '0' && s[1] == 'b' {
        radix_value(s.skip(2), 2)
    } else {
        radix_value(s, 8)
    }
}

/// True when the textual mode is well formed for its radix.
pub open spec fn spec_mode_ok(s: Seq<char>) -> bool {
    if s.len() >= 2 && s[0] == '0' && s[1] == 'o' {
        valid_radix(s.skip(2), 8)
    } else if s.len() >= 2 && s[0] == '0' && s[1] == 'x' {
        valid_radix(s.skip(2), 16)
    } else if s.len() >= 2 && s[0] == '0' && s[1] == 'b' {
        valid_radix(s.skip(2), 2)
    } else {
        valid_radix(s, 8)
    }
}

/// Parses a textual mode: `0o`, `0x` and `0b` prefixes pick the radix, and
/// anything unprefixed reads as octal. `None` on bad digits or a value
/// past the `u32` range.
pub fn parse_filesystem_mode(mode: &str) -> (r: Option<u32>)
    ensures
        (match r {
            Option::Some(v) => spec_mode_ok(mode@) && v == spec_parse_mode(mode@),
            Option::None => !spec_mode_ok(mode@) || spec_parse_mode(mode@) > u32::MAX,
        }),
{
    let cs = str_chars(mode);
    let prefixed: Option<u32> = if cs.len() >= 2 && cs[0] == '0' {
        if cs[1] == 'o' {
            Some(8)
        } else if cs[1] == 'x' {
            Some(16)
        } else if cs[1] == 'b' {
            Some(2)
        } else {
            None
        }
    } else {
        None
    };
    match prefixed {
        Some(radix) => parse_radix(&cs, 2, radix),
        None => {
            let out = parse_radix(&cs, 0, 8);
            proof {
                assert(cs@.skip(0) =~= cs@);
            }
            out
        },
    }
}

} // verus!
