//! Line-oriented and ordering utilities over strings.
//!
//! Bodies are handled as sequences of lines. Splitting follows the usual
//! convention that a line is terminated by `'\n'` and that a final line
//! ending is optional, so the last empty segment of a text that ends in a
//! newline is not a line of its own.

use vstd::prelude::*;

verus! {

/// Position of the first newline at or after `i`, or the text's length when
/// there is none.
pub open spec fn line_end(s: Seq<char>, i: nat) -> nat
    decreases s.len() - i,
{
    if i >= s.len() {
        s.len()
    } else if s[i as int] == '\n' {
        i
    } else {
        line_end(s, i + 1)
    }
}

pub proof fn lemma_line_end(s: Seq<char>, i: nat)
    requires
        i <= s.len(),
    ensures
        i <= line_end(s, i) <= s.len(),
        forall|j: int| i <= j < line_end(s, i) ==> s[j] != '\n',
        line_end(s, i) < s.len() ==> s[line_end(s, i) as int] == '\n',
    decreases s.len() - i,
{
    if i < s.len() && s[i as int] != '\n' {
        lemma_line_end(s, i + 1);
    }
}

/// The first newline at or after `i` is at `k`.
pub proof fn lemma_line_end_at(s: Seq<char>, i: nat, k: nat)
    requires
        i <= k <= s.len(),
        k < s.len() ==> s[k as int] == '\n',
        forall|j: int| i <= j < k ==> s[j] != '\n',
    ensures
        line_end(s, i) == k,
    decreases k - i,
{
    if i < k {
        lemma_line_end_at(s, i + 1, k);
    }
}

/// The lines of a text: segments separated by `'\n'`, a final line ending
/// being optional.
pub open spec fn spec_split_lines(s: Seq<char>) -> Seq<Seq<char>>
    decreases s.len(),
{
    if s.len() == 0 {
        Seq::empty()
    } else {
        let e = line_end(s, 0);
        if e >= s.len() {
            seq![s]
        } else {
            seq![s.take(e as int)] + spec_split_lines(s.skip(e as int + 1))
        }
    }
}

/// No line produced by splitting contains a newline.
pub proof fn lemma_split_lines_no_newline(s: Seq<char>)
    ensures
        forall|k: int|
            0 <= k < spec_split_lines(s).len() ==> !(#[trigger] spec_split_lines(s)[k]).contains(
                '\n',
            ),
    decreases s.len(),
{
    if s.len() == 0 {
    } else {
        let e = line_end(s, 0);
        lemma_line_end(s, 0);
        if e >= s.len() {
            assert(forall|j: int| 0 <= j < s.len() ==> s[j] != '\n');
        } else {
            lemma_split_lines_no_newline(s.skip(e as int + 1));
            let head = s.take(e as int);
            assert(forall|j: int| 0 <= j < head.len() ==> head[j] != '\n');
            assert(!head.contains('\n'));
            assert(forall|k: int|
                0 <= k < spec_split_lines(s).len() ==> spec_split_lines(s)[k]
                    == (seq![head] + spec_split_lines(s.skip(e as int + 1)))[k]);
        }
    }
}

/// The lines joined with a newline between each pair.
pub open spec fn spec_join_lines(lines: Seq<Seq<char>>) -> Seq<char>
    decreases lines.len(),
{
    if lines.len() == 0 {
        Seq::empty()
    } else if lines.len() == 1 {
        lines[0]
    } else {
        lines[0] + seq!['\n'] + spec_join_lines(lines.drop_first())
    }
}

pub proof fn lemma_join_lines_push(lines: Seq<Seq<char>>, x: Seq<char>)
    requires
        lines.len() >= 1,
    ensures
        spec_join_lines(lines.push(x)) == spec_join_lines(lines) + seq!['\n'] + x,
    decreases lines.len(),
{
    if lines.len() == 1 {
        assert(lines.push(x).drop_first() =~= seq![x]);
        assert(lines.push(x)[0] == lines[0]);
        assert(spec_join_lines(seq![x]) == x);
    } else {
        lemma_join_lines_push(lines.drop_first(), x);
        assert(lines.push(x).drop_first() =~= lines.drop_first().push(x));
        assert(spec_join_lines(lines.push(x)) == lines[0] + seq!['\n'] + spec_join_lines(
            lines.drop_first().push(x),
        ));
        assert(lines[0] + seq!['\n'] + (spec_join_lines(lines.drop_first()) + seq!['\n'] + x) =~= (
        lines[0] + seq!['\n'] + spec_join_lines(lines.drop_first())) + seq!['\n'] + x);
    }
}

/// Splitting undoes joining: the newline-terminated join of newline-free
/// lines splits back into exactly those lines.
pub proof fn lemma_split_of_join(lines: Seq<Seq<char>>)
    requires
        lines.len() > 0,
        forall|k: int| 0 <= k < lines.len() ==> !(#[trigger] lines[k]).contains('\n'),
    ensures
        spec_split_lines(spec_join_lines(lines) + seq!['\n']) == lines,
    decreases lines.len(),
{
    let s = spec_join_lines(lines) + seq!['\n'];
    let head = lines[0];
    assert(forall|j: int| 0 <= j < head.len() ==> head[j] != '\n');
    if lines.len() == 1 {
        assert(s =~= head + seq!['\n']);
        lemma_line_end_at(s, 0, head.len());
        let e = line_end(s, 0);
        assert(e == head.len());
        assert(e < s.len());
        assert(s.take(e as int) =~= head);
        assert(s.skip(e as int + 1) =~= Seq::<char>::empty());
        assert(spec_split_lines(s.skip(e as int + 1)) == Seq::<Seq<char>>::empty());
        assert(spec_split_lines(s) == seq![s.take(e as int)] + spec_split_lines(
            s.skip(e as int + 1),
        ));
        assert(seq![head] + Seq::<Seq<char>>::empty() =~= lines);
    } else {
        let rest = lines.drop_first();
        assert(forall|k: int| 0 <= k < rest.len() ==> !(#[trigger] rest[k]).contains('\n'));
        lemma_split_of_join(rest);
        assert(s =~= head + seq!['\n'] + (spec_join_lines(rest) + seq!['\n']));
        assert(forall|j: int| 0 <= j < head.len() ==> s[j] == head[j]);
        assert(s[head.len() as int] == '\n');
        lemma_line_end_at(s, 0, head.len());
        assert(s.take(head.len() as int) =~= head);
        assert(s.skip(head.len() as int + 1) =~= spec_join_lines(rest) + seq!['\n']);
        assert(spec_split_lines(s) == seq![head] + spec_split_lines(
            spec_join_lines(rest) + seq!['\n'],
        ));
        assert(seq![head] + rest =~= lines);
    }
}

/// Joining lines whose last element is empty is joining the others and
/// ending with a newline.
pub proof fn lemma_join_drop_last_empty(lines: Seq<Seq<char>>)
    requires
        lines.len() >= 2,
        lines.last().len() == 0,
    ensures
        spec_join_lines(lines) == spec_join_lines(lines.drop_last()) + seq!['\n'],
{
    lemma_join_lines_push(lines.drop_last(), lines.last());
    assert(lines.drop_last().push(lines.last()) =~= lines);
    assert(spec_join_lines(lines.drop_last()) + seq!['\n'] + lines.last() =~= spec_join_lines(
        lines.drop_last(),
    ) + seq!['\n']);
}

/// The join of newline-free lines, the last of them non-empty, does not end
/// in a newline.
pub proof fn lemma_join_last_nonempty(lines: Seq<Seq<char>>)
    requires
        lines.len() > 0,
        forall|k: int| 0 <= k < lines.len() ==> !(#[trigger] lines[k]).contains('\n'),
        lines.last().len() > 0,
    ensures
        spec_join_lines(lines).len() > 0,
        spec_join_lines(lines).last() != '\n',
    decreases lines.len(),
{
    if lines.len() == 1 {
        assert(lines[0].last() != '\n');
    } else {
        let rest = lines.drop_first();
        assert(forall|k: int| 0 <= k < rest.len() ==> !(#[trigger] rest[k]).contains('\n'));
        lemma_join_last_nonempty(rest);
        let j = spec_join_lines(lines);
        assert(j =~= lines[0] + seq!['\n'] + spec_join_lines(rest));
        assert(j.last() == spec_join_lines(rest).last());
    }
}

fn line_end_exec(s: &str, i: usize) -> (r: usize)
    requires
        i <= s@.len(),
    ensures
        r == line_end(s@, i as nat),
        r <= s@.len(),
    decreases s@.len() - i,
{
    let n = s.unicode_len();
    if i < n && s.get_char(i) != '\n' {
        line_end_exec(s, i + 1)
    } else {
        if i >= n {
            n
        } else {
            i
        }
    }
}

/// The lines of a text, splitting at `'\n'`; a final line ending is
/// optional.
pub fn split_lines(s: &str) -> (r: Vec<String>)
    ensures
        r.deep_view() == spec_split_lines(s@),
    decreases s@.len(),
{
    let n = s.unicode_len();
    let mut r: Vec<String> = Vec::new();
    if n == 0 {
        assert(r.deep_view() =~= spec_split_lines(s@));
        return r;
    }
    let e = line_end_exec(s, 0);
    if e >= n {
        r.push(s.to_owned());
        assert(r.deep_view() =~= seq![s@]);
        return r;
    }
    let head = s.substring_char(0, e).to_owned();
    let tail = s.substring_char(e + 1, n);
    proof {
        assert(tail@ =~= s@.skip(e as int + 1));
    }
    let mut rest = split_lines(tail);
    r.push(head);
    r.append(&mut rest);
    proof {
        assert(head@ == s@.take(e as int));
        assert(r.deep_view() =~= seq![s@.take(e as int)] + spec_split_lines(s@.skip(e as int + 1)));
    }
    r
}

/// The lines joined with a newline between each pair.
pub fn join_lines(lines: &Vec<String>) -> (r: String)
    ensures
        r@ == spec_join_lines(lines.deep_view()),
{
    let ghost lv = lines.deep_view();
    let mut r = String::new();
    if lines.len() == 0 {
        return r;
    }
    r.append(lines[0].as_str());
    assert(r@ == spec_join_lines(lv.take(1))) by {
        assert(lv.take(1) =~= seq![lv[0]]);
    }
    let mut i: usize = 1;
    while i < lines.len()
        invariant
            1 <= i <= lines.len(),
            lv == lines.deep_view(),
            lv.len() == lines.len(),
            r@ == spec_join_lines(lv.take(i as int)),
        decreases lines.len() - i,
    {
        r.append("\n");
        r.append(lines[i].as_str());
        proof {
            reveal_strlit("\n");
            assert("\n"@ =~= seq!['\n']);
            lemma_join_lines_push(lv.take(i as int), lv[i as int]);
            assert(lv.take(i as int).push(lv[i as int]) =~= lv.take(i as int + 1));
        }
        i += 1;
    }
    assert(lv.take(lines.len() as int) =~= lv);
    r
}

// --- lexicographic order on character sequences ---

/// Strict lexicographic order by Unicode scalar value; a proper prefix comes
/// first. This is the order in which Rust compares strings.
pub open spec fn lex_lt(a: Seq<char>, b: Seq<char>) -> bool
    decreases a.len(),
{
    if b.len() == 0 {
        false
    } else if a.len() == 0 {
        true
    } else if a[0] == b[0] {
        lex_lt(a.drop_first(), b.drop_first())
    } else {
        a[0] < b[0]
    }
}

pub proof fn lemma_lex_lt_irrefl(a: Seq<char>)
    ensures
        !lex_lt(a, a),
    decreases a.len(),
{
    if a.len() > 0 {
        lemma_lex_lt_irrefl(a.drop_first());
    }
}

pub proof fn lemma_lex_lt_trans(a: Seq<char>, b: Seq<char>, c: Seq<char>)
    requires
        lex_lt(a, b),
        lex_lt(b, c),
    ensures
        lex_lt(a, c),
    decreases a.len() + b.len() + c.len(),
{
    if a.len() == 0 {
    } else if b.len() == 0 {
    } else if c.len() == 0 {
    } else {
        if a[0] == b[0] && b[0] == c[0] {
            lemma_lex_lt_trans(a.drop_first(), b.drop_first(), c.drop_first());
        }
    }
}

/// Two distinct sequences are ordered one way or the other.
pub proof fn lemma_lex_lt_connected(a: Seq<char>, b: Seq<char>)
    requires
        a != b,
    ensures
        lex_lt(a, b) || lex_lt(b, a),
    decreases a.len(),
{
    if a.len() == 0 {
        if b.len() == 0 {
            assert(a =~= b);
        }
        assert(b.len() > 0);
    } else if b.len() == 0 {
    } else {
        if a[0] == b[0] {
            assert(a.drop_first() != b.drop_first()) by {
                if a.drop_first() == b.drop_first() {
                    assert(a =~= seq![a[0]] + a.drop_first());
                    assert(b =~= seq![b[0]] + b.drop_first());
                }
            }
            lemma_lex_lt_connected(a.drop_first(), b.drop_first());
        }
    }
}

/// Dropping a common prefix does not change the order.
pub proof fn lemma_lex_lt_common_prefix(a: Seq<char>, b: Seq<char>, i: int)
    requires
        0 <= i <= a.len(),
        i <= b.len(),
        forall|j: int| 0 <= j < i ==> a[j] == b[j],
    ensures
        lex_lt(a, b) == lex_lt(a.skip(i), b.skip(i)),
    decreases i,
{
    if i > 0 {
        assert(a.len() > 0 && b.len() > 0 && a[0] == b[0]);
        lemma_lex_lt_common_prefix(a.drop_first(), b.drop_first(), i - 1);
        assert(a.drop_first().skip(i - 1) =~= a.skip(i));
        assert(b.drop_first().skip(i - 1) =~= b.skip(i));
    } else {
        assert(a.skip(0) =~= a);
        assert(b.skip(0) =~= b);
    }
}

/// Three-way comparison of two strings in lexicographic order: negative,
/// zero or positive as `a` comes before, equals or comes after `b`.
pub fn lex_cmp(a: &str, b: &str) -> (r: i8)
    ensures
        r == -1 ==> lex_lt(a@, b@),
        r == 0 ==> a@ == b@,
        r == 1 ==> lex_lt(b@, a@),
        r == -1 || r == 0 || r == 1,
{
    let na = a.unicode_len();
    let nb = b.unicode_len();
    let mut i: usize = 0;
    loop
        invariant
            i <= na,
            i <= nb,
            na == a@.len(),
            nb == b@.len(),
            forall|j: int| 0 <= j < i ==> a@[j] == b@[j],
        decreases na - i,
    {
        proof {
            lemma_lex_lt_common_prefix(a@, b@, i as int);
            lemma_lex_lt_common_prefix(b@, a@, i as int);
        }
        if i >= na && i >= nb {
            assert(a@ =~= b@);
            return 0;
        }
        if i >= na {
            assert(a@.skip(i as int).len() == 0 && b@.skip(i as int).len() > 0);
            return -1;
        }
        if i >= nb {
            return 1;
        }
        let ca = a.get_char(i);
        let cb = b.get_char(i);
        if ca != cb {
            proof {
                assert(a@.skip(i as int)[0] == ca && b@.skip(i as int)[0] == cb);
            }
            if ca < cb {
                return -1;
            } else {
                return 1;
            }
        }
        i += 1;
    }
}

// --- sorted duplicate-free insertion ---

/// `x` inserted into `s` at its place in ascending order; already-present
/// values are not duplicated.
pub open spec fn insert_id(x: Seq<char>, s: Seq<Seq<char>>) -> Seq<Seq<char>>
    decreases s.len(),
{
    if s.len() == 0 {
        seq![x]
    } else if x == s[0] {
        s
    } else if lex_lt(x, s[0]) {
        seq![x] + s
    } else {
        seq![s[0]] + insert_id(x, s.drop_first())
    }
}

/// The distinct values of `ids`, in ascending lexicographic order.
pub open spec fn sort_unique_ids(ids: Seq<Seq<char>>) -> Seq<Seq<char>>
    decreases ids.len(),
{
    if ids.len() == 0 {
        Seq::empty()
    } else {
        insert_id(ids[0], sort_unique_ids(ids.drop_first()))
    }
}

/// Each value comes strictly before the next: ascending and duplicate-free.
pub open spec fn strictly_sorted(s: Seq<Seq<char>>) -> bool {
    forall|i: int, j: int| 0 <= i < j < s.len() ==> lex_lt(#[trigger] s[i], #[trigger] s[j])
}

pub proof fn lemma_insert_id_ensures(x: Seq<char>, s: Seq<Seq<char>>)
    requires
        strictly_sorted(s),
    ensures
        strictly_sorted(insert_id(x, s)),
        forall|y: Seq<char>|
            #![trigger insert_id(x, s).contains(y)]
            #![trigger s.contains(y)]
            insert_id(x, s).contains(y) <==> (y == x || s.contains(y)),
    decreases s.len(),
{
    if s.len() == 0 {
        assert forall|y: Seq<char>|
            #![trigger insert_id(x, s).contains(y)]
            #![trigger s.contains(y)]
            insert_id(x, s).contains(y) <==> (y == x || s.contains(y)) by {
            assert(insert_id(x, s) =~= seq![x]);
            if y == x {
                assert(seq![x][0] == y);
            }
        }
    } else if x == s[0] {
        assert forall|y: Seq<char>|
            #![trigger insert_id(x, s).contains(y)]
            #![trigger s.contains(y)]
            insert_id(x, s).contains(y) <==> (y == x || s.contains(y)) by {
            if y == x {
                assert(s[0] == y);
                assert(s.contains(y));
            }
        }
    } else if lex_lt(x, s[0]) {
        let r = seq![x] + s;
        assert(insert_id(x, s) == r);
        assert forall|i: int, j: int| 0 <= i < j < r.len() implies lex_lt(r[i], r[j]) by {
            if i == 0 {
                if j > 1 {
                    lemma_lex_lt_trans(x, s[0], s[j - 1]);
                }
            }
        }
        assert forall|y: Seq<char>|
            #![trigger insert_id(x, s).contains(y)]
            #![trigger s.contains(y)]
            insert_id(x, s).contains(y) <==> (y == x || s.contains(y)) by {
            if y == x {
                assert(r[0] == y);
                assert(r.contains(y));
            }
            if s.contains(y) {
                let k = choose|k: int| 0 <= k < s.len() && s[k] == y;
                assert(r[k + 1] == y);
            }
            if r.contains(y) && y != x {
                let k = choose|k: int| 0 <= k < r.len() && r[k] == y;
                assert(s[k - 1] == y);
            }
        }
    } else {
        let tail = s.drop_first();
        assert(strictly_sorted(tail)) by {
            assert(forall|i: int, j: int|
                0 <= i < j < tail.len() ==> tail[i] == s[i + 1] && tail[j] == s[j + 1]);
        }
        lemma_insert_id_ensures(x, tail);
        lemma_lex_lt_connected(x, s[0]);
        let r = seq![s[0]] + insert_id(x, tail);
        assert(insert_id(x, s) == r);
        assert forall|i: int, j: int| 0 <= i < j < r.len() implies lex_lt(r[i], r[j]) by {
            if i == 0 {
                let y = r[j];
                assert(insert_id(x, tail).contains(r[j])) by {
                    assert(insert_id(x, tail)[j - 1] == r[j]);
                }
                if y == x {
                } else {
                    assert(tail.contains(y));
                    let k = choose|k: int| 0 <= k < tail.len() && tail[k] == y;
                    assert(s[k + 1] == y);
                    assert(lex_lt(s[0], s[k + 1]));
                }
            } else {
                assert(lex_lt(insert_id(x, tail)[i - 1], insert_id(x, tail)[j - 1]));
            }
        }
        assert forall|y: Seq<char>|
            #![trigger insert_id(x, s).contains(y)]
            #![trigger s.contains(y)]
            insert_id(x, s).contains(y) <==> (y == x || s.contains(y)) by {
            if r.contains(y) {
                let k = choose|k: int| 0 <= k < r.len() && r[k] == y;
                if k == 0 {
                    assert(s[0] == y);
                } else {
                    assert(insert_id(x, tail)[k - 1] == y);
                    assert(insert_id(x, tail).contains(y));
                    if y != x {
                        assert(tail.contains(y));
                        let m = choose|m: int| 0 <= m < tail.len() && tail[m] == y;
                        assert(s[m + 1] == y);
                    }
                }
            }
            if y == x {
                assert(insert_id(x, tail).contains(y));
                let k = choose|k: int| 0 <= k < insert_id(x, tail).len() && insert_id(x, tail)[k]
                    == y;
                assert(r[k + 1] == y);
            }
            if s.contains(y) {
                let k = choose|k: int| 0 <= k < s.len() && s[k] == y;
                if k == 0 {
                    assert(r[0] == y);
                } else {
                    assert(tail[k - 1] == y);
                    assert(insert_id(x, tail).contains(y));
                    let m = choose|m: int| 0 <= m < insert_id(x, tail).len() && insert_id(
                        x,
                        tail,
                    )[m] == y;
                    assert(r[m + 1] == y);
                }
            }
        }
    }
}

/// Sorting law: the rendered order of a set of ticket identifiers is
/// strictly ascending lexicographic, and it holds exactly the identifiers
/// that were parsed, each once.
pub proof fn lemma_sort_unique_ids_ensures(ids: Seq<Seq<char>>)
    ensures
        strictly_sorted(sort_unique_ids(ids)),
        forall|y: Seq<char>|
            #![trigger sort_unique_ids(ids).contains(y)]
            #![trigger ids.contains(y)]
            sort_unique_ids(ids).contains(y) <==> ids.contains(y),
    decreases ids.len(),
{
    if ids.len() == 0 {
    } else {
        let tail = ids.drop_first();
        lemma_sort_unique_ids_ensures(tail);
        lemma_insert_id_ensures(ids[0], sort_unique_ids(tail));
        assert forall|y: Seq<char>| sort_unique_ids(ids).contains(y) <==> ids.contains(y) by {
            if y == ids[0] {
                assert(ids[0] == y);
                assert(ids.contains(y));
            }
            if tail.contains(y) {
                let k = choose|k: int| 0 <= k < tail.len() && tail[k] == y;
                assert(ids[k + 1] == y);
            }
            if ids.contains(y) && y != ids[0] {
                let k = choose|k: int| 0 <= k < ids.len() && ids[k] == y;
                assert(tail[k - 1] == y);
            }
        }
    }
}

fn insert_id_exec(x: String, s: &Vec<String>) -> (r: Vec<String>)
    ensures
        r.deep_view() == insert_id(x@, s.deep_view()),
{
    let ghost sv = s.deep_view();
    proof {
        assert(sv.skip(0) =~= sv);
        assert(sv.take(0) + insert_id(x@, sv) =~= insert_id(x@, sv));
        assert(Seq::<Seq<char>>::empty() =~= sv.take(0));
    }
    let mut r: Vec<String> = Vec::new();
    let mut k: usize = 0;
    loop
        invariant
            k <= s.len(),
            sv == s.deep_view(),
            sv.len() == s.len(),
            r.deep_view() =~= sv.take(k as int),
            insert_id(x@, sv) == sv.take(k as int) + insert_id(x@, sv.skip(k as int)),
        decreases s.len() - k,
    {
        if k >= s.len() {
            assert(sv.skip(k as int) =~= Seq::<Seq<char>>::empty());
            r.push(x);
            assert(r.deep_view() =~= sv.take(k as int) + seq![x@]);
            return r;
        }
        let c = lex_cmp(s[k].as_str(), x.as_str());
        proof {
            assert(sv.skip(k as int)[0] == sv[k as int]);
            assert(sv.skip(k as int).drop_first() =~= sv.skip(k as int + 1));
        }
        if c == 0 {
            // the value is already present: copy the rest unchanged
            assert(insert_id(x@, sv.skip(k as int)) == sv.skip(k as int));
            let mut m: usize = k;
            while m < s.len()
                invariant
                    k <= m <= s.len(),
                    sv == s.deep_view(),
                    sv.len() == s.len(),
                    r.deep_view() =~= sv.take(m as int),
                decreases s.len() - m,
            {
                r.push(s[m].clone());
                assert(r.deep_view() =~= sv.take(m as int).push(sv[m as int]));
                assert(sv.take(m as int).push(sv[m as int]) =~= sv.take(m as int + 1));
                m += 1;
            }
            assert(sv.take(s.len() as int) =~= sv);
            assert(sv.take(k as int) + sv.skip(k as int) =~= sv);
            return r;
        } else if c == 1 {
            // x comes before the rest: put it here, then copy the rest
            proof {
                lemma_lex_lt_irrefl(x@);
                assert(lex_lt(x@, sv[k as int]));
                assert(insert_id(x@, sv.skip(k as int)) == seq![x@] + sv.skip(k as int));
            }
            r.push(x);
            let ghost placed = sv.take(k as int) + seq![x@];
            assert(r.deep_view() =~= placed);
            let mut m: usize = k;
            while m < s.len()
                invariant
                    k <= m <= s.len(),
                    sv == s.deep_view(),
                    sv.len() == s.len(),
                    r.deep_view() =~= placed + sv.subrange(k as int, m as int),
                decreases s.len() - m,
            {
                r.push(s[m].clone());
                assert(r.deep_view() =~= (placed + sv.subrange(k as int, m as int)).push(
                    sv[m as int],
                ));
                assert((placed + sv.subrange(k as int, m as int)).push(sv[m as int]) =~= placed
                    + sv.subrange(k as int, m as int + 1));
                m += 1;
            }
            assert(sv.subrange(k as int, s.len() as int) =~= sv.skip(k as int));
            assert(placed + sv.skip(k as int) =~= sv.take(k as int) + (seq![x@] + sv.skip(
                k as int,
            )));
            return r;
        } else {
            // s[k] comes before x: keep it and move on
            proof {
                assert(lex_lt(sv[k as int], x@));
                lemma_lex_lt_irrefl(x@);
                assert(x@ != sv[k as int]);
                assert(!lex_lt(x@, sv[k as int])) by {
                    if lex_lt(x@, sv[k as int]) {
                        lemma_lex_lt_trans(x@, sv[k as int], x@);
                    }
                }
                assert(insert_id(x@, sv.skip(k as int)) == seq![sv[k as int]] + insert_id(
                    x@,
                    sv.skip(k as int + 1),
                ));
            }
            r.push(s[k].clone());
            proof {
                assert(r.deep_view() =~= sv.take(k as int).push(sv[k as int]));
                assert(sv.take(k as int).push(sv[k as int]) =~= sv.take(k as int + 1));
                assert(sv.take(k as int) + (seq![sv[k as int]] + insert_id(
                    x@,
                    sv.skip(k as int + 1),
                )) =~= sv.take(k as int + 1) + insert_id(x@, sv.skip(k as int + 1)));
            }
            k += 1;
        }
    }
}

/// The distinct values of `ids` in ascending lexicographic order.
pub fn sort_unique_exec(ids: &Vec<String>) -> (r: Vec<String>)
    ensures
        r.deep_view() == sort_unique_ids(ids.deep_view()),
{
    let ghost iv = ids.deep_view();
    let mut r: Vec<String> = Vec::new();
    let mut i: usize = ids.len();
    while i > 0
        invariant
            i <= ids.len(),
            iv == ids.deep_view(),
            iv.len() == ids.len(),
            r.deep_view() == sort_unique_ids(iv.skip(i as int)),
        decreases i,
    {
        i -= 1;
        let next = insert_id_exec(ids[i].clone(), &r);
        proof {
            assert(iv.skip(i as int)[0] == iv[i as int]);
            assert(iv.skip(i as int).drop_first() =~= iv.skip(i as int + 1));
        }
        r = next;
    }
    assert(iv.skip(0) =~= iv);
    r
}

} // verus!
