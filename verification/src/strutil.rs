//! Verified string helpers: equality, splitting at a separator, joining, and
//! lexicographic comparison by code point.
//!
//! Paths are plain strings; a path's *segments* are the non-empty pieces
//! between `/` separators.

use vstd::prelude::*;

verus! {

/// True when a character sequence contains no occurrence of `sep`.
pub open spec fn no_sep(s: Seq<char>, sep: char) -> bool {
    forall|k: int| 0 <= k < s.len() ==> s[k] != sep
}

/// Index of the first occurrence of `sep` in `s`, or `s.len()` if absent.
pub open spec fn find_sep(s: Seq<char>, sep: char) -> int
    decreases s.len(),
{
    if s.len() == 0 {
        0
    } else if s[0] == sep {
        0
    } else {
        1 + find_sep(s.skip(1), sep)
    }
}

pub proof fn lemma_find_sep(s: Seq<char>, sep: char)
    ensures
        0 <= find_sep(s, sep) <= s.len(),
        find_sep(s, sep) < s.len() ==> s[find_sep(s, sep)] == sep,
        forall|k: int| 0 <= k < find_sep(s, sep) ==> s[k] != sep,
    decreases s.len(),
{
    if s.len() == 0 {
    } else if s[0] == sep {
    } else {
        lemma_find_sep(s.skip(1), sep);
        assert forall|k: int| 0 <= k < find_sep(s, sep) implies s[k] != sep by {
            if k >= 1 {
                assert(s.skip(1)[k - 1] != sep);
            }
        }
    }
}

/// `find_sep` returns the unique index that is a separator with none before it.
proof fn lemma_find_sep_unique(s: Seq<char>, sep: char, k: int)
    requires
        0 <= k < s.len(),
        s[k] == sep,
        forall|j: int| 0 <= j < k ==> s[j] != sep,
    ensures
        find_sep(s, sep) == k,
    decreases s.len(),
{
    if s[0] == sep {
        assert(k == 0);
    } else {
        assert(k >= 1);
        let t = s.skip(1);
        assert(t[k - 1] == sep);
        assert(forall|j: int| 0 <= j < k - 1 ==> t[j] != sep);
        lemma_find_sep_unique(t, sep, k - 1);
    }
}

/// The pieces of `s` split at every occurrence of `sep`; empty pieces are
/// kept, so the result always has one more piece than `s` has separators.
pub open spec fn split_spec(s: Seq<char>, sep: char) -> Seq<Seq<char>>
    decreases s.len(),
    via split_spec_dec
{
    if find_sep(s, sep) == s.len() {
        seq![s]
    } else {
        seq![s.take(find_sep(s, sep))] + split_spec(s.skip(find_sep(s, sep) + 1), sep)
    }
}

#[via_fn]
proof fn split_spec_dec(s: Seq<char>, sep: char) {
    lemma_find_sep(s, sep);
}

/// Splitting at the first separator: if `s[k] == sep` and no separator comes
/// before `k`, the split is `s[..k]` followed by the split of `s[k+1..]`.
pub proof fn lemma_split_at_first(s: Seq<char>, sep: char, k: int)
    requires
        0 <= k < s.len(),
        s[k] == sep,
        forall|j: int| 0 <= j < k ==> s[j] != sep,
    ensures
        split_spec(s, sep) == seq![s.take(k)] + split_spec(s.skip(k + 1), sep),
{
    lemma_find_sep(s, sep);
    lemma_find_sep_unique(s, sep, k);
}

/// A sequence without separators splits into just itself.
pub proof fn lemma_split_no_sep(s: Seq<char>, sep: char)
    requires
        no_sep(s, sep),
    ensures
        split_spec(s, sep) == seq![s],
{
    lemma_find_sep(s, sep);
    if find_sep(s, sep) < s.len() {
        assert(s[find_sep(s, sep)] == sep);
    }
}

/// Splits `s` at every occurrence of `sep`, keeping empty pieces.
pub fn split_char(s: &str, sep: char) -> (r: Vec<String>)
    ensures
        r.deep_view() == split_spec(s@, sep),
{
    let n = s.unicode_len();
    let mut out: Vec<String> = Vec::new();
    let mut start: usize = 0;
    let mut i: usize = 0;
    proof {
        assert(s@.skip(0) =~= s@);
        assert(out.deep_view() + split_spec(s@, sep) =~= split_spec(s@, sep));
    }
    while i < n
        invariant
            0 <= start <= i <= n,
            n == s@.len(),
            forall|k: int| start <= k < i ==> s@[k] != sep,
            out.deep_view() + split_spec(s@.skip(start as int), sep) == split_spec(s@, sep),
        decreases n - i,
    {
        if s.get_char(i) == sep {
            let piece = s.substring_char(start, i).to_owned();
            let ghost pre = out.deep_view();
            proof {
                let rest = s@.skip(start as int);
                assert(rest[i - start] == sep);
                assert(forall|j: int| 0 <= j < i - start ==> rest[j] != sep);
                lemma_split_at_first(rest, sep, i - start);
                assert(rest.take(i - start) =~= s@.subrange(start as int, i as int));
                assert(rest.skip(i - start + 1) =~= s@.skip(i as int + 1));
            }
            out.push(piece);
            proof {
                assert(out.deep_view() =~= pre.push(piece@));
                assert(pre.push(piece@) + split_spec(s@.skip(i as int + 1), sep)
                    =~= pre + split_spec(s@.skip(start as int), sep));
            }
            start = i + 1;
        }
        i += 1;
    }
    let piece = s.substring_char(start, n).to_owned();
    let ghost pre = out.deep_view();
    proof {
        let rest = s@.skip(start as int);
        lemma_split_no_sep(rest, sep);
        assert(piece@ =~= rest);
    }
    out.push(piece);
    proof {
        let rest = s@.skip(start as int);
        assert(out.deep_view() =~= pre.push(piece@));
        assert(pre.push(piece@) =~= pre + seq![rest]);
        assert(out.deep_view() =~= split_spec(s@, sep));
    }
    out
}

/// True when the two strings hold the same characters.
pub fn str_eq(a: &str, b: &str) -> (r: bool)
    ensures
        r == (a@ == b@),
{
    let sa = a.to_owned();
    let sb = b.to_owned();
    sa == sb
}

/// `base` extended with the path segment `name`: a `/` is inserted unless
/// `base` already ends with one, and an empty `name` leaves `base` unchanged.
pub open spec fn joined(base: Seq<char>, name: Seq<char>) -> Seq<char> {
    if name.len() == 0 {
        base
    } else if base.len() > 0 && base[base.len() - 1] == '/' {
        base + name
    } else {
        base + seq!['/'] + name
    }
}

/// Appends the path segment `name` to `base`.
pub fn join_path(base: &str, name: &str) -> (r: String)
    ensures
        r@ == joined(base@, name@),
{
    let mut r = base.to_owned();
    if name.unicode_len() == 0 {
        return r;
    }
    let bl = base.unicode_len();
    if !(bl > 0 && base.get_char(bl - 1) == '/') {
        proof {
            reveal_strlit("/");
            assert("/"@ =~= seq!['/']);
        }
        r.append("/");
    }
    r.append(name);
    proof {
        assert(r@ =~= joined(base@, name@));
    }
    r
}

/// The pieces joined with `sep` between consecutive pieces.
pub open spec fn joined_with(parts: Seq<Seq<char>>, sep: Seq<char>) -> Seq<char>
    decreases parts.len(),
{
    if parts.len() == 0 {
        Seq::empty()
    } else if parts.len() == 1 {
        parts[0]
    } else {
        joined_with(parts.drop_last(), sep) + sep + parts.last()
    }
}

/// Joins the strings of `parts` with `sep` between consecutive entries.
pub fn join_with(parts: &Vec<String>, sep: &str) -> (r: String)
    ensures
        r@ == joined_with(parts.deep_view(), sep@),
{
    let mut r = String::new();
    let mut i: usize = 0;
    while i < parts.len()
        invariant
            0 <= i <= parts.len(),
            r@ == joined_with(parts.deep_view().take(i as int), sep@),
        decreases parts.len() - i,
    {
        if i > 0 {
            r.append(sep);
        }
        r.append(parts[i].as_str());
        proof {
            let dv = parts.deep_view();
            assert(dv.take(i + 1).drop_last() =~= dv.take(i as int));
            assert(dv.take(i + 1).last() == dv[i as int]);
            if i == 0 {
                assert(r@ =~= joined_with(dv.take(1), sep@));
            }
        }
        i += 1;
    }
    proof {
        assert(parts.deep_view().take(parts.len() as int) =~= parts.deep_view());
    }
    r
}

/// The non-empty pieces of `ts`, in order.
pub open spec fn drop_empty(ts: Seq<Seq<char>>) -> Seq<Seq<char>>
    decreases ts.len(),
{
    if ts.len() == 0 {
        Seq::empty()
    } else if ts.last().len() == 0 {
        drop_empty(ts.drop_last())
    } else {
        drop_empty(ts.drop_last()).push(ts.last())
    }
}

/// The segments of a path string: the non-empty pieces between `/` separators.
pub open spec fn segs_of(s: Seq<char>) -> Seq<Seq<char>> {
    drop_empty(split_spec(s, '/'))
}

/// Splits a path string into its non-empty segments.
pub fn path_segs(s: &str) -> (r: Vec<String>)
    ensures
        r.deep_view() == segs_of(s@),
{
    split_nonempty(s, '/')
}

/// Splits `s` at `sep` and keeps only the non-empty pieces.
pub fn split_nonempty(s: &str, sep: char) -> (r: Vec<String>)
    ensures
        r.deep_view() == drop_empty(split_spec(s@, sep)),
{
    let pieces = split_char(s, sep);
    let mut out: Vec<String> = Vec::new();
    let mut i: usize = 0;
    while i < pieces.len()
        invariant
            0 <= i <= pieces.len(),
            pieces.deep_view() == split_spec(s@, sep),
            out.deep_view() == drop_empty(pieces.deep_view().take(i as int)),
        decreases pieces.len() - i,
    {
        let ghost pre = out.deep_view();
        let ghost pdv = pieces.deep_view();
        if !pieces[i].as_str().is_empty() {
            let piece = pieces[i].clone();
            out.push(piece);
        }
        proof {
            assert(pdv.take(i + 1).drop_last() =~= pdv.take(i as int));
            assert(pdv.take(i + 1).last() == pdv[i as int]);
            if pdv[i as int].len() == 0 {
                assert(out.deep_view() =~= drop_empty(pdv.take(i + 1)));
            } else {
                assert(out.deep_view() =~= pre.push(pdv[i as int]));
                assert(out.deep_view() =~= drop_empty(pdv.take(i + 1)));
            }
        }
        i += 1;
    }
    proof {
        assert(pieces.deep_view().take(pieces.len() as int) =~= pieces.deep_view());
    }
    out
}

/// True when the string sequence `a` is a prefix of `b`.
pub fn segs_prefix(a: &Vec<String>, b: &Vec<String>) -> (r: bool)
    ensures
        r == a.deep_view().is_prefix_of(b.deep_view()),
{
    if a.len() > b.len() {
        proof {
            assert(!a.deep_view().is_prefix_of(b.deep_view()));
        }
        return false;
    }
    let mut i: usize = 0;
    while i < a.len()
        invariant
            0 <= i <= a.len() <= b.len(),
            a@.len() == a.deep_view().len(),
            b@.len() == b.deep_view().len(),
            forall|k: int| 0 <= k < i ==> a.deep_view()[k] == b.deep_view()[k],
        decreases a.len() - i,
    {
        if !str_eq(a[i].as_str(), b[i].as_str()) {
            proof {
                assert(a.deep_view()[i as int] != b.deep_view()[i as int]);
                assert(!a.deep_view().is_prefix_of(b.deep_view()));
            }
            return false;
        }
        i += 1;
    }
    proof {
        assert(a.deep_view() =~= b.deep_view().subrange(0, a.deep_view().len() as int));
    }
    true
}
/// Lexicographic order on character sequences, by code point.
pub open spec fn chars_le(a: Seq<char>, b: Seq<char>) -> bool
    decreases a.len(),
{
    if a.len() == 0 {
        true
    } else if b.len() == 0 {
        false
    } else if a[0] != b[0] {
        (a[0] as int) < (b[0] as int)
    } else {
        chars_le(a.skip(1), b.skip(1))
    }
}

pub proof fn lemma_chars_le_total(a: Seq<char>, b: Seq<char>)
    ensures
        chars_le(a, b) || chars_le(b, a),
        (chars_le(a, b) && chars_le(b, a)) ==> a == b,
    decreases a.len(),
{
    if a.len() == 0 {
        if b.len() == 0 {
            assert(a =~= b);
        }
    } else if b.len() == 0 {
    } else if a[0] == b[0] {
        lemma_chars_le_total(a.skip(1), b.skip(1));
        if chars_le(a, b) && chars_le(b, a) {
            assert(a =~= seq![a[0]] + a.skip(1));
            assert(b =~= seq![b[0]] + b.skip(1));
        }
    }
}

pub proof fn lemma_chars_le_trans(a: Seq<char>, b: Seq<char>, c: Seq<char>)
    requires
        chars_le(a, b),
        chars_le(b, c),
    ensures
        chars_le(a, c),
    decreases a.len(),
{
    if a.len() == 0 {
    } else if b.len() == 0 {
    } else if c.len() == 0 {
    } else {
        if a[0] == b[0] && b[0] == c[0] {
            lemma_chars_le_trans(a.skip(1), b.skip(1), c.skip(1));
        }
    }
}

/// Compares two strings lexicographically by code point.
pub fn str_le(a: &str, b: &str) -> (r: bool)
    ensures
        r == chars_le(a@, b@),
{
    let na = a.unicode_len();
    let nb = b.unicode_len();
    let mut i: usize = 0;
    proof {
        assert(a@.skip(0) =~= a@);
        assert(b@.skip(0) =~= b@);
    }
    loop
        invariant
            0 <= i <= na,
            i <= nb,
            na == a@.len(),
            nb == b@.len(),
            chars_le(a@, b@) == chars_le(a@.skip(i as int), b@.skip(i as int)),
        decreases na - i,
    {
        if i >= na {
            proof {
                assert(a@.skip(i as int).len() == 0);
            }
            return true;
        }
        if i >= nb {
            proof {
                assert(b@.skip(i as int).len() == 0);
                assert(a@.skip(i as int).len() > 0);
            }
            return false;
        }
        let ca = a.get_char(i);
        let cb = b.get_char(i);
        proof {
            assert(a@.skip(i as int)[0] == a@[i as int]);
            assert(b@.skip(i as int)[0] == b@[i as int]);
            assert(a@.skip(i as int).skip(1) =~= a@.skip(i as int + 1));
            assert(b@.skip(i as int).skip(1) =~= b@.skip(i as int + 1));
        }
        if ca != cb {
            return ca < cb;
        }
        i += 1;
    }
}

/// True when some entry of `v` holds exactly the characters `x`.
pub fn contains_str(v: &Vec<String>, x: &str) -> (r: bool)
    ensures
        r == v.deep_view().contains(x@),
{
    let mut i: usize = 0;
    while i < v.len()
        invariant
            0 <= i <= v.len(),
            v@.len() == v.deep_view().len(),
            forall|k: int| 0 <= k < i ==> v.deep_view()[k] != x@,
        decreases v.len() - i,
    {
        if str_eq(v[i].as_str(), x) {
            proof {
                assert(v.deep_view()[i as int] == x@);
            }
            return true;
        }
        i += 1;
    }
    proof {
        if v.deep_view().contains(x@) {
            let w = choose|w: int| 0 <= w < v.deep_view().len() && v.deep_view()[w] == x@;
        }
    }
    false
}

/// True when the string views of `vs` are in ascending order without repeats.
pub open spec fn strictly_sorted(vs: Seq<Seq<char>>) -> bool {
    forall|i: int, j: int|
        0 <= i < j < vs.len() ==> chars_le(vs[i], vs[j]) && vs[i] != vs[j]
}

/// Index of the first entry of the sorted vector `out` that `x` precedes,
/// assuming `x` itself is absent.
fn lower_pos(out: &Vec<String>, x: &str) -> (pos: usize)
    requires
        strictly_sorted(out.deep_view()),
        !out.deep_view().contains(x@),
    ensures
        pos <= out.len(),
        forall|k: int| 0 <= k < pos ==> chars_le(out.deep_view()[k], x@),
        pos < out.deep_view().len() ==> !chars_le(out.deep_view()[pos as int], x@),
{
    let mut pos: usize = 0;
    while pos < out.len()
        invariant
            0 <= pos <= out.len(),
            out@.len() == out.deep_view().len(),
            forall|k: int| 0 <= k < pos ==> chars_le(out.deep_view()[k], x@),
        decreases out.len() - pos,
    {
        if !str_le(out[pos].as_str(), x) {
            return pos;
        }
        pos += 1;
    }
    pos
}

/// Sorts the strings ascending by code-point order and removes duplicates.
/// The result holds exactly the distinct strings of the input.
pub fn sort_dedup(v: &Vec<String>) -> (r: Vec<String>)
    ensures
        strictly_sorted(r.deep_view()),
        forall|x: Seq<char>| r.deep_view().contains(x) <==> v.deep_view().contains(x),
{
    let mut out: Vec<String> = Vec::new();
    let mut i: usize = 0;
    while i < v.len()
        invariant
            0 <= i <= v.len(),
            v@.len() == v.deep_view().len(),
            strictly_sorted(out.deep_view()),
            forall|x: Seq<char>|
                out.deep_view().contains(x) <==> v.deep_view().take(i as int).contains(x),
        decreases v.len() - i,
    {
        let ghost vdv = v.deep_view();
        let item = v[i].clone();
        proof {
            assert(item@ == vdv[i as int]);
        }
        if !contains_str(&out, item.as_str()) {
            let pos = lower_pos(&out, item.as_str());
            let ghost pre = out.deep_view();
            let ghost prev = out@;
            out.insert(pos, item);
            proof {
                let post = out.deep_view();
                prev.insert_ensures(pos as int, item);
                pre.insert_ensures(pos as int, item@);
                assert forall|k: int| 0 <= k < post.len() implies post[k] == pre.insert(
                    pos as int,
                    item@,
                )[k] by {
                    if k < pos as int {
                        assert(out@[k] == prev[k]);
                    } else if k == pos as int {
                        assert(out@[k] == item);
                    } else {
                        assert(out@[(k - 1) + 1] == prev[k - 1]);
                    }
                }
                assert(post =~= pre.insert(pos as int, item@));
                pre.insert_ensures(pos as int, item@);
                lemma_sorted_insert(pre, item@, pos as int);
                assert forall|x: Seq<char>| post.contains(x) <==> vdv.take(i + 1).contains(
                    x,
                ) by {
                    lemma_insert_contains(pre, pos as int, item@);
                    lemma_take_step(vdv, i as int, x);
                    assert(post.contains(x) <==> (pre.contains(x) || x == item@));
                    assert(pre.contains(x) <==> vdv.take(i as int).contains(x));
                    assert(vdv.take(i + 1).contains(x) <==> (vdv.take(i as int).contains(x)
                        || x == vdv[i as int]));
                }
            }
        } else {
            proof {
                let post = out.deep_view();
                assert forall|x: Seq<char>| post.contains(x) <==> vdv.take(i + 1).contains(
                    x,
                ) by {
                    lemma_take_step(vdv, i as int, x);
                    assert(post.contains(x) <==> vdv.take(i as int).contains(x));
                    assert(vdv.take(i + 1).contains(x) <==> (vdv.take(i as int).contains(x)
                        || x == vdv[i as int]));
                    if x == vdv[i as int] {
                        assert(post.contains(item@));
                    }
                }
            }
        }
        i += 1;
    }
    proof {
        assert(v.deep_view().take(v.len() as int) =~= v.deep_view());
    }
    out
}

proof fn lemma_take_step(vs: Seq<Seq<char>>, i: int, x: Seq<char>)
    requires
        0 <= i < vs.len(),
    ensures
        vs.take(i + 1).contains(x) <==> (vs.take(i).contains(x) || x == vs[i]),
{
    if vs.take(i + 1).contains(x) {
        let w = choose|w: int| 0 <= w < i + 1 && (#[trigger] vs.take(i + 1)[w]) == x;
        if w < i {
            assert(vs.take(i)[w] == x);
        }
    }
    if vs.take(i).contains(x) {
        let w = choose|w: int| 0 <= w < i && vs.take(i)[w] == x;
        assert(vs.take(i + 1)[w] == x);
    }
    if x == vs[i] {
        assert(vs.take(i + 1)[i] == x);
    }
}

proof fn lemma_insert_contains(pre: Seq<Seq<char>>, pos: int, item: Seq<char>)
    requires
        0 <= pos <= pre.len(),
    ensures
        forall|x: Seq<char>|
            pre.insert(pos, item).contains(x) <==> (pre.contains(x) || x == item),
{
    pre.insert_ensures(pos, item);
    let post = pre.insert(pos, item);
    assert forall|x: Seq<char>| post.contains(x) <==> (pre.contains(x) || x == item) by {
        if post.contains(x) {
            let w = choose|w: int| 0 <= w < post.len() && post[w] == x;
            if w < pos {
                assert(pre[w] == x);
            } else if w > pos {
                assert(post[(w - 1) + 1] == pre[w - 1]);
            }
        }
        if pre.contains(x) {
            let w = choose|w: int| 0 <= w < pre.len() && pre[w] == x;
            if w < pos {
                assert(post[w] == x);
            } else {
                assert(post[w + 1] == x);
            }
        }
        if x == item {
            assert(post[pos] == x);
        }
    }
}

#[verifier::spinoff_prover]
#[verifier::rlimit(100)]
proof fn lemma_sorted_insert(pre: Seq<Seq<char>>, item: Seq<char>, pos: int)
    requires
        0 <= pos <= pre.len(),
        strictly_sorted(pre),
        !pre.contains(item),
        forall|k: int| 0 <= k < pos ==> chars_le(pre[k], item),
        pos < pre.len() ==> !chars_le(pre[pos], item),
    ensures
        strictly_sorted(pre.insert(pos, item)),
{
    pre.insert_ensures(pos, item);
    let post = pre.insert(pos, item);
    assert forall|x: int, y: int| 0 <= x < y < post.len() implies chars_le(post[x], post[y])
        && post[x] != post[y] by {
        if y < pos {
        } else if x < pos && y == pos {
            assert(post[x] == pre[x]);
            assert(post[y] == item);
            assert(chars_le(pre[x], item));
            assert(pre[x] != item) by {
                if pre[x] == item {
                    assert(pre.contains(item));
                }
            }
        } else if x < pos && y > pos {
            assert(post[x] == pre[x]);
            assert(post[y] == pre[y - 1]);
        } else if x == pos && y > pos {
            assert(post[x] == item);
            assert(post[y] == pre[y - 1]);
            assert(pos < pre.len());
            lemma_chars_le_total(pre[pos], item);
            assert(chars_le(item, pre[pos]));
            if y - 1 > pos {
                lemma_chars_le_trans(item, pre[pos], pre[y - 1]);
            }
            assert(pre[y - 1] != item) by {
                if pre[y - 1] == item {
                    assert(pre.contains(item));
                }
            }
        } else {
            assert(post[x] == pre[x - 1]);
            assert(post[y] == pre[y - 1]);
        }
    }
}

/// True when `pre` is a prefix of `s`, character for character.
pub fn str_starts_with(s: &str, pre: &str) -> (r: bool)
    ensures
        r == pre@.is_prefix_of(s@),
{
    let n = s.unicode_len();
    let m = pre.unicode_len();
    if m > n {
        proof {
            assert(!pre@.is_prefix_of(s@));
        }
        return false;
    }
    let mut i: usize = 0;
    while i < m
        invariant
            0 <= i <= m <= n,
            n == s@.len(),
            m == pre@.len(),
            forall|k: int| 0 <= k < i ==> s@[k] == pre@[k],
        decreases m - i,
    {
        if s.get_char(i) != pre.get_char(i) {
            proof {
                assert(!pre@.is_prefix_of(s@)) by {
                    if pre@.is_prefix_of(s@) {
                        assert(s@.subrange(0, m as int)[i as int] == s@[i as int]);
                    }
                }
            }
            return false;
        }
        i += 1;
    }
    proof {
        assert(pre@ =~= s@.subrange(0, m as int));
    }
    true
}

} // verus!
