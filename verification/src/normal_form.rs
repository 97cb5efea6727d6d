//! The normal form that `normalize` gives, and its laws: every normalised
//! text is in normal form, a text in normal form is left as it is, and so
//! normalising twice is normalising once.

use vstd::prelude::*;
use crate::html::{join, normalized, raw_lines, squeeze_lines};
use crate::text::{
    first_index, is_white, lemma_first_index_bounds, strip_leading, strip_trailing, trim_end,
};

verus! {

/// One step of the reader that checks the normal form. States: 0 at the
/// start, 1 after a visible character, 2 after whitespace other than a
/// newline, 3 after a newline that ends a line, 4 after a blank line, 5 at
/// the start while only newlines were read; -1 once the text is refused
/// (a newline at the start, after whitespace, or as the third in a row).
pub open spec fn next_state(q: int, c: char) -> int {
    if q == -1 {
        -1
    } else if c == '\n' {
        if q == 1 {
            3
        } else if q == 3 {
            4
        } else if q == 5 {
            5
        } else {
            -1
        }
    } else if is_white(c) {
        2
    } else {
        1
    }
}

/// The state after reading `s` from `q`.
pub open spec fn read_from(q: int, s: Seq<char>) -> int
    decreases s.len(),
{
    if s.len() == 0 {
        q
    } else {
        read_from(next_state(q, s[0]), s.drop_first())
    }
}

/// `s` is in normal form: read from the start it is never refused and it
/// ends after a visible character (or is empty). So no line ends in
/// whitespace, no two blank lines follow one another, and the text neither
/// starts nor ends with a newline.
pub open spec fn is_normal(s: Seq<char>) -> bool {
    let q = read_from(0, s);
    q == 0 || q == 1
}

proof fn lemma_read_concat(q: int, a: Seq<char>, b: Seq<char>)
    ensures
        read_from(q, a + b) == read_from(read_from(q, a), b),
    decreases a.len(),
{
    if a.len() == 0 {
        assert(a + b =~= b);
    } else {
        assert((a + b).drop_first() =~= a.drop_first() + b);
        lemma_read_concat(next_state(q, a[0]), a.drop_first(), b);
    }
}

proof fn lemma_read_one(q: int, c: char)
    ensures
        read_from(q, seq![c]) == next_state(q, c),
{
    assert(seq![c].drop_first() =~= Seq::<char>::empty());
    assert(seq![c][0] == c);
    assert(read_from(next_state(q, c), Seq::<char>::empty()) == next_state(q, c));
    assert(read_from(q, seq![c]) == read_from(next_state(q, c), seq![c].drop_first()));
}

proof fn lemma_refused_stays(s: Seq<char>)
    ensures
        read_from(-1, s) == -1,
    decreases s.len(),
{
    if s.len() > 0 {
        lemma_refused_stays(s.drop_first());
    }
}

/// Reading a non-empty line (no newline) from a live state ends in 1 or 2,
/// by its last character.
proof fn lemma_read_line(q: int, s: Seq<char>)
    requires
        q != -1,
        s.len() > 0,
        forall|k: int| 0 <= k < s.len() ==> s[k] != '\n',
    ensures
        read_from(q, s) == (if is_white(s.last()) { 2int } else { 1int }),
    decreases s.len(),
{
    let q1 = next_state(q, s[0]);
    assert(q1 == 1 || q1 == 2);
    if s.len() > 1 {
        let t = s.drop_first();
        assert forall|k: int| 0 <= k < t.len() implies t[k] != '\n' by {
            assert(t[k] == s[k + 1]);
        }
        assert(t.last() == s.last());
        lemma_read_line(q1, t);
    } else {
        assert(s.drop_first().len() == 0);
        assert(read_from(q1, s.drop_first()) == q1);
    }
}

proof fn lemma_trim_end_prefix(s: Seq<char>)
    ensures
        trim_end(s).len() <= s.len(),
        trim_end(s) == s.take(trim_end(s).len() as int),
        trim_end(s).len() > 0 ==> !is_white(trim_end(s).last()),
    decreases s.len(),
{
    if s.len() > 0 && is_white(s.last()) {
        lemma_trim_end_prefix(s.drop_last());
        assert(s.drop_last().take(trim_end(s).len() as int) =~= s.take(trim_end(s).len() as int));
    } else {
        assert(s.take(s.len() as int) =~= s);
    }
}

/// The lines of `s` hold no newline.
proof fn lemma_raw_lines_no_newline(s: Seq<char>)
    ensures
        forall|i: int, k: int|
            0 <= i < raw_lines(s).len() && 0 <= k < raw_lines(s)[i].len() ==> raw_lines(s)[i][k]
                != '\n',
    decreases s.len(),
{
    if s.len() > 0 {
        let j = first_index(s, '\n');
        lemma_first_index_bounds(s, '\n');
        if j < s.len() {
            lemma_raw_lines_no_newline(s.skip(j + 1));
            let rest = raw_lines(s.skip(j + 1));
            assert forall|i: int, k: int|
                0 <= i < raw_lines(s).len() && 0 <= k < raw_lines(s)[i].len() implies raw_lines(
                s,
            )[i][k] != '\n' by {
                if i > 0 {
                    assert(raw_lines(s)[i] == rest[i - 1]);
                }
            }
        }
    }
}

/// Reading the squeezed lines from the start states keeps to 3, 4 or 5.
proof fn lemma_squeeze_states(ls: Seq<Seq<char>>, pb: bool, q: int)
    requires
        q == 3 || q == 4 || q == 5,
        pb ==> (q == 4 || q == 5),
        !pb ==> (q == 3 || q == 5),
        forall|i: int, k: int| 0 <= i < ls.len() && 0 <= k < ls[i].len() ==> ls[i][k] != '\n',
    ensures
        ({
            let r = read_from(q, squeeze_lines(ls, pb));
            r == 3 || r == 4 || r == 5
        }),
    decreases ls.len(),
{
    if ls.len() > 0 {
        let t = trim_end(ls[0]);
        let rest = ls.drop_first();
        assert forall|i: int, k: int| 0 <= i < rest.len() && 0 <= k < rest[i].len() implies rest[i][k]
            != '\n' by {
            assert(rest[i] == ls[i + 1]);
        }
        lemma_trim_end_prefix(ls[0]);
        if t.len() == 0 {
            if pb {
                assert(squeeze_lines(ls, pb) =~= squeeze_lines(rest, true));
                lemma_squeeze_states(rest, true, q);
            } else {
                let q2 = next_state(q, '\n');
                lemma_read_one(q, '\n');
                lemma_read_concat(q, seq!['\n'], squeeze_lines(rest, true));
                lemma_squeeze_states(rest, true, q2);
            }
        } else {
            assert forall|k: int| 0 <= k < t.len() implies t[k] != '\n' by {
                assert(t[k] == ls[0][k]);
            }
            lemma_read_line(q, t);
            lemma_read_one(1, '\n');
            lemma_read_concat(q, t, seq!['\n']);
            lemma_read_concat(q, t + seq!['\n'], squeeze_lines(rest, false));
            lemma_squeeze_states(rest, false, 3);
        }
    }
}

proof fn lemma_start_newlines(y: Seq<char>)
    ensures
        strip_leading(y, '\n').len() == 0 ==> read_from(5, y) == 5,
        strip_leading(y, '\n').len() > 0 ==> read_from(5, y) == read_from(0, strip_leading(y, '\n')),
    decreases y.len(),
{
    if y.len() > 0 {
        if y[0] == '\n' {
            lemma_start_newlines(y.drop_first());
        }
    }
}

proof fn lemma_strip_trailing_split(w: Seq<char>)
    ensures
        strip_trailing(w, '\n').len() <= w.len(),
        w == strip_trailing(w, '\n') + Seq::new(
            (w.len() - strip_trailing(w, '\n').len()) as nat,
            |i: int| '\n',
        ),
        strip_trailing(w, '\n').len() > 0 ==> strip_trailing(w, '\n').last() != '\n',
    decreases w.len(),
{
    if w.len() > 0 && w.last() == '\n' {
        lemma_strip_trailing_split(w.drop_last());
        let z = strip_trailing(w, '\n');
        let m = (w.len() - 1 - z.len()) as nat;
        assert(w.drop_last() == z + Seq::new(m, |i: int| '\n'));
        assert forall|i: int| 0 <= i < w.len() implies w[i] == (z + Seq::new(
            (m + 1) as nat,
            |i: int| '\n',
        ))[i] by {
            if i < w.len() - 1 {
                assert(w[i] == w.drop_last()[i]);
            }
        }
        assert(w =~= z + Seq::new((w.len() - z.len()) as nat, |i: int| '\n'));
    } else {
        assert(w =~= w + Seq::new(0, |i: int| '\n'));
    }
}

proof fn lemma_newlines_from(r: int, n: nat)
    requires
        n > 0,
        ({
            let e = read_from(r, Seq::new(n, |i: int| '\n'));
            e == 3 || e == 4
        }),
    ensures
        r == 1 || r == 3 || r == 4,
    decreases n,
{
    let nl = Seq::new(n, |i: int| '\n');
    let r1 = next_state(r, '\n');
    assert(nl.drop_first() =~= Seq::new((n - 1) as nat, |i: int| '\n'));
    if n == 1 {
        assert(read_from(r1, nl.drop_first()) == r1);
    } else {
        if r1 == -1 {
            lemma_refused_stays(nl.drop_first());
        } else if r1 == 5 {
            lemma_newlines_from(r1, (n - 1) as nat);
        }
    }
}

proof fn lemma_no_newline_end_state(q: int, z: Seq<char>)
    requires
        q == 0,
        z.len() > 0,
        z.last() != '\n',
    ensures
        read_from(q, z) != 3 && read_from(q, z) != 4,
    decreases z.len(),
{
    lemma_read_concat(q, z.drop_last(), seq![z.last()]);
    assert(z.drop_last() + seq![z.last()] =~= z);
    let r = read_from(q, z.drop_last());
    assert(seq![z.last()].drop_first() =~= Seq::<char>::empty());
    assert(read_from(r, seq![z.last()]) == read_from(next_state(r, z.last()), Seq::<char>::empty()));
    assert(read_from(r, seq![z.last()]) == next_state(r, z.last()));
}

proof fn lemma_never_five(q: int, s: Seq<char>)
    requires
        q != 5,
    ensures
        read_from(q, s) != 5,
    decreases s.len(),
{
    if s.len() > 0 {
        lemma_never_five(next_state(q, s[0]), s.drop_first());
    }
}

/// Law: whatever `s` is, `normalize(s)` is in normal form.
pub proof fn lemma_normalized_is_normal(s: Seq<char>)
    ensures
        is_normal(normalized(s)),
{
    let y = squeeze_lines(raw_lines(s), false);
    lemma_raw_lines_no_newline(s);
    lemma_squeeze_states(raw_lines(s), false, 5);
    lemma_start_newlines(y);
    let w = strip_leading(y, '\n');
    let z = strip_trailing(w, '\n');
    lemma_strip_trailing_split(w);
    if w.len() > 0 {
        let nl = Seq::new((w.len() - z.len()) as nat, |i: int| '\n');
        lemma_never_five(0, w);
        lemma_read_concat(0, z, nl);
        let r = read_from(0, z);
        if z.len() == w.len() {
            assert(nl.len() == 0);
            assert(read_from(r, nl) == r);
            if z.len() > 0 {
                lemma_no_newline_end_state(0, z);
            }
        } else {
            lemma_newlines_from(r, nl.len());
            if z.len() > 0 {
                lemma_no_newline_end_state(0, z);
            } else {
                assert(read_from(0, z) == 0);
            }
        }
    } else {
        assert(z.len() == 0);
    }
}

} // verus!

verus! {

proof fn lemma_squeeze_exact(x: Seq<char>, q: int, pb: bool)
    requires
        q == 0 || q == 3 || q == 4,
        pb == (q == 4),
        read_from(q, x) == 1,
    ensures
        squeeze_lines(raw_lines(x), pb) == x + seq!['\n'],
    decreases x.len(),
{
    if x.len() == 0 {
        assert(read_from(q, x) == q);
    }
    let j = first_index(x, '\n');
    lemma_first_index_bounds(x, '\n');
    if j == x.len() {
        lemma_read_line(q, x);
        assert(!is_white(x.last()));
        assert(trim_end(x) == x);
        assert(raw_lines(x) == seq![x]);
        assert(seq![x].drop_first() =~= Seq::<Seq<char>>::empty());
        assert(squeeze_lines(Seq::<Seq<char>>::empty(), false) =~= Seq::<char>::empty());
        assert(squeeze_lines(seq![x], pb) =~= x + seq!['\n'] + squeeze_lines(
            seq![x].drop_first(),
            false,
        ));
    } else {
        let line = x.take(j);
        let rest = x.skip(j + 1);
        assert(x =~= line + seq!['\n'] + rest);
        lemma_read_concat(q, line + seq!['\n'], rest);
        lemma_read_concat(q, line, seq!['\n']);
        let q1 = read_from(q, line);
        lemma_read_one(q1, '\n');
        let q2 = next_state(q1, '\n');
        assert(raw_lines(x) == seq![line] + raw_lines(rest));
        assert((seq![line] + raw_lines(rest)).drop_first() =~= raw_lines(rest));
        if q2 == -1 {
            lemma_refused_stays(rest);
        }
        if rest.len() == 0 {
            assert(read_from(q2, rest) == q2);
        }
        if j > 0 {
            assert forall|k: int| 0 <= k < line.len() implies line[k] != '\n' by {
                assert(line[k] == x[k]);
            }
            lemma_read_line(q, line);
            assert(q1 == 1);
            lemma_squeeze_exact(rest, 3, false);
            assert(trim_end(line) == line);
            assert(squeeze_lines(raw_lines(x), pb) =~= line + seq!['\n'] + (rest + seq!['\n']));
        } else {
            assert(line.len() == 0);
            assert(q1 == q);
            assert(q == 3);
            lemma_squeeze_exact(rest, 4, true);
            assert(trim_end(line) =~= line);
            assert(squeeze_lines(raw_lines(x), pb) =~= seq!['\n'] + (rest + seq!['\n']));
        }
    }
}

proof fn lemma_never_zero(q: int, s: Seq<char>)
    requires
        s.len() > 0,
    ensures
        read_from(q, s) != 0,
    decreases s.len(),
{
    if s.len() > 1 {
        lemma_never_zero(next_state(q, s[0]), s.drop_first());
    } else {
        assert(read_from(next_state(q, s[0]), s.drop_first()) == next_state(q, s[0]));
    }
}

proof fn lemma_accepted_last(n: Seq<char>)
    requires
        n.len() > 0,
        read_from(0, n) == 1,
    ensures
        n.last() != '\n',
        !is_white(n.last()),
{
    assert(n =~= n.drop_last() + seq![n.last()]);
    lemma_read_concat(0, n.drop_last(), seq![n.last()]);
    lemma_read_one(read_from(0, n.drop_last()), n.last());
}

/// Law: a text in normal form is left unchanged by `normalize`.
pub proof fn lemma_normal_is_fixed(n: Seq<char>)
    requires
        is_normal(n),
    ensures
        normalized(n) == n,
{
    if n.len() == 0 {
        assert(raw_lines(n) =~= Seq::<Seq<char>>::empty());
        assert(squeeze_lines(raw_lines(n), false) =~= Seq::<char>::empty());
    } else {
        lemma_never_zero(0, n);
        assert(read_from(0, n) == 1);
        lemma_squeeze_exact(n, 0, false);
        let y = n + seq!['\n'];
        assert(next_state(0, '\n') == -1);
        if n[0] == '\n' {
            assert(read_from(0, n) == read_from(-1, n.drop_first()));
            lemma_refused_stays(n.drop_first());
        }
        assert(y[0] == n[0]);
        assert(strip_leading(y, '\n') == y);
        lemma_accepted_last(n);
        assert(y.drop_last() =~= n);
        assert(strip_trailing(y, '\n') == strip_trailing(n, '\n'));
        assert(strip_trailing(n, '\n') == n);
    }
}

/// Law: normalising twice is normalising once.
pub proof fn lemma_normalize_idempotent(s: Seq<char>)
    ensures
        normalized(normalized(s)) == normalized(s),
{
    lemma_normalized_is_normal(s);
    lemma_normal_is_fixed(normalized(s));
}

proof fn lemma_refused_prefix(n: Seq<char>, k: int)
    requires
        0 <= k <= n.len(),
        read_from(0, n.take(k)) == -1,
    ensures
        read_from(0, n) == -1,
{
    assert(n =~= n.take(k) + n.skip(k));
    lemma_read_concat(0, n.take(k), n.skip(k));
    lemma_refused_stays(n.skip(k));
}

proof fn lemma_read_prefix_step(n: Seq<char>, k: int)
    requires
        0 <= k < n.len(),
    ensures
        read_from(0, n.take(k + 1)) == next_state(read_from(0, n.take(k)), n[k]),
{
    assert(n.take(k + 1) =~= n.take(k) + seq![n[k]]);
    lemma_read_concat(0, n.take(k), seq![n[k]]);
    lemma_read_one(read_from(0, n.take(k)), n[k]);
}

/// Law, in plain terms: a text in normal form neither starts nor ends with
/// a newline, does not end in whitespace, has no whitespace right before a
/// newline (so no line ends in whitespace), and never holds three newlines
/// in a row (so never two blank lines in a row).
pub proof fn lemma_normal_form_facts(n: Seq<char>)
    requires
        is_normal(n),
    ensures
        n.len() > 0 ==> n[0] != '\n' && n.last() != '\n' && !is_white(n.last()),
        forall|i: int|
            0 <= i < n.len() - 1 && #[trigger] n[i + 1] == '\n' && n[i] != '\n' ==> !is_white(n[i]),
        forall|i: int|
            0 <= i < n.len() - 2 ==> !(#[trigger] n[i] == '\n' && n[i + 1] == '\n' && n[i + 2] == '\n'),
{
    if n.len() > 0 {
        lemma_read_prefix_step(n, 0);
        assert(n.take(0) =~= Seq::<char>::empty());
        if n[0] == '\n' {
            lemma_refused_prefix(n, 1);
        }
        lemma_never_zero(0, n);
        lemma_accepted_last(n);
    }
    assert forall|i: int|
        0 <= i < n.len() - 1 && #[trigger] n[i + 1] == '\n' && n[i] != '\n' implies !is_white(n[i]) by {
        lemma_read_prefix_step(n, i);
        lemma_read_prefix_step(n, i + 1);
        if is_white(n[i]) {
            assert(read_from(0, n.take(i + 1)) == 2 || read_from(0, n.take(i + 1)) == -1);
            lemma_refused_prefix(n, i + 2);
        }
    }
    assert forall|i: int| 0 <= i < n.len() - 2 implies !(#[trigger] n[i] == '\n' && n[i + 1] == '\n'
        && n[i + 2] == '\n') by {
        if n[i] == '\n' && n[i + 1] == '\n' && n[i + 2] == '\n' {
            lemma_read_prefix_step(n, i);
            lemma_read_prefix_step(n, i + 1);
            lemma_read_prefix_step(n, i + 2);
            lemma_never_five(0, n.take(i));
            lemma_refused_prefix(n, i + 3);
        }
    }
}

} // verus!

verus! {

/// The lines of `ls` that are not blank, each without trailing whitespace,
/// in order.
pub open spec fn content_lines(ls: Seq<Seq<char>>) -> Seq<Seq<char>>
    decreases ls.len(),
{
    if ls.len() == 0 {
        seq![]
    } else {
        let t = trim_end(ls[0]);
        (if t.len() == 0 {
            seq![]
        } else {
            seq![t]
        }) + content_lines(ls.drop_first())
    }
}

proof fn lemma_content_concat(a: Seq<Seq<char>>, b: Seq<Seq<char>>)
    ensures
        content_lines(a + b) == content_lines(a) + content_lines(b),
    decreases a.len(),
{
    if a.len() == 0 {
        assert(a + b =~= b);
    } else {
        assert((a + b)[0] == a[0]);
        assert((a + b).drop_first() =~= a.drop_first() + b);
        lemma_content_concat(a.drop_first(), b);
        let t = trim_end(a[0]);
        let h: Seq<Seq<char>> = if t.len() == 0 {
            seq![]
        } else {
            seq![t]
        };
        assert(h + (content_lines(a.drop_first()) + content_lines(b)) =~= (h + content_lines(
            a.drop_first(),
        )) + content_lines(b));
    }
}

proof fn lemma_first_index_concat(x: Seq<char>, y: Seq<char>, c: char)
    ensures
        first_index(x + y, c) == (if first_index(x, c) < x.len() {
            first_index(x, c)
        } else {
            x.len() + first_index(y, c)
        }),
    decreases x.len(),
{
    lemma_first_index_bounds(x, c);
    if x.len() == 0 {
        assert(x + y =~= y);
    } else {
        assert((x + y)[0] == x[0]);
        if x[0] != c {
            assert((x + y).drop_first() =~= x.drop_first() + y);
            lemma_first_index_concat(x.drop_first(), y, c);
        }
    }
}

proof fn lemma_raw_lines_concat(x: Seq<char>, y: Seq<char>)
    requires
        x.len() == 0 || x.last() == '\n',
    ensures
        raw_lines(x + y) == raw_lines(x) + raw_lines(y),
    decreases x.len(),
{
    if x.len() == 0 {
        assert(x + y =~= y);
        assert(raw_lines(x) =~= Seq::<Seq<char>>::empty());
        assert(raw_lines(x) + raw_lines(y) =~= raw_lines(y));
    } else {
        let j = first_index(x, '\n');
        lemma_first_index_bounds(x, '\n');
        if j == x.len() {
            assert(x[x.len() - 1] == '\n');
            assert(false);
        }
        lemma_first_index_concat(x, y, '\n');
        assert((x + y).take(j) =~= x.take(j));
        assert((x + y).skip(j + 1) =~= x.skip(j + 1) + y);
        let x2 = x.skip(j + 1);
        assert(x2.len() == 0 || x2.last() == '\n');
        lemma_raw_lines_concat(x2, y);
        assert(raw_lines(x + y) == seq![x.take(j)] + raw_lines(x2 + y));
        assert(raw_lines(x) == seq![x.take(j)] + raw_lines(x2));
        assert(seq![x.take(j)] + (raw_lines(x2) + raw_lines(y)) =~= (seq![x.take(j)] + raw_lines(
            x2,
        )) + raw_lines(y));
    }
}

proof fn lemma_newline_line() 
    ensures
        raw_lines(seq!['\n']) == seq![Seq::<char>::empty()],
        content_lines(seq![Seq::<char>::empty()]) == Seq::<Seq<char>>::empty(),
{
    let s = seq!['\n'];
    assert(first_index(s, '\n') == 0);
    assert(s.take(0) =~= Seq::<char>::empty());
    assert(s.skip(1) =~= Seq::<char>::empty());
    assert(raw_lines(s.skip(1)) =~= Seq::<Seq<char>>::empty());
    assert(raw_lines(s) =~= seq![Seq::<char>::empty()]);
    let e = seq![Seq::<char>::empty()];
    assert(e.drop_first() =~= Seq::<Seq<char>>::empty());
    assert(content_lines(e.drop_first()) =~= Seq::<Seq<char>>::empty());
    assert(trim_end(e[0]) =~= Seq::<char>::empty());
    assert(content_lines(e) =~= Seq::<Seq<char>>::empty() + Seq::<Seq<char>>::empty());
}

proof fn lemma_content_after_newline(x: Seq<char>)
    ensures
        content_lines(raw_lines(seq!['\n'] + x)) == content_lines(raw_lines(x)),
{
    lemma_raw_lines_concat(seq!['\n'], x);
    lemma_newline_line();
    lemma_content_concat(seq![Seq::<char>::empty()], raw_lines(x));
    assert(Seq::<Seq<char>>::empty() + content_lines(raw_lines(x)) =~= content_lines(raw_lines(x)));
}

proof fn lemma_content_before_newline(x: Seq<char>)
    ensures
        content_lines(raw_lines(x + seq!['\n'])) == content_lines(raw_lines(x)),
    decreases x.len(),
{
    let n = seq!['\n'];
    if x.len() == 0 {
        assert(x + n =~= n);
        lemma_newline_line();
        assert(raw_lines(x) =~= Seq::<Seq<char>>::empty());
    } else {
        let j = first_index(x, '\n');
        lemma_first_index_bounds(x, '\n');
        lemma_first_index_concat(x, n, '\n');
        assert((x + n).take(j) =~= x.take(j));
        if j < x.len() {
            let x2 = x.skip(j + 1);
            assert((x + n).skip(j + 1) =~= x2 + n);
            lemma_content_before_newline(x2);
            assert(raw_lines(x + n) == seq![x.take(j)] + raw_lines(x2 + n));
            assert(raw_lines(x) == seq![x.take(j)] + raw_lines(x2));
            lemma_content_concat(seq![x.take(j)], raw_lines(x2 + n));
            lemma_content_concat(seq![x.take(j)], raw_lines(x2));
        } else {
            assert(first_index(n, '\n') == 0);
            assert(first_index(x + n, '\n') == x.len());
            assert((x + n).len() == x.len() + 1);
            assert((x + n).skip(j + 1) =~= Seq::<char>::empty());
            assert(raw_lines((x + n).skip(j + 1)) =~= Seq::<Seq<char>>::empty());
            assert(x.take(j) =~= x);
            assert(raw_lines(x + n) == seq![(x + n).take(j)] + raw_lines((x + n).skip(j + 1)));
            assert(raw_lines(x + n) =~= seq![x]);
            assert(raw_lines(x) =~= seq![x]);
        }
    }
}

proof fn lemma_content_strip_leading(v: Seq<char>)
    ensures
        content_lines(raw_lines(strip_leading(v, '\n'))) == content_lines(raw_lines(v)),
    decreases v.len(),
{
    if v.len() > 0 && v[0] == '\n' {
        lemma_content_strip_leading(v.drop_first());
        assert(v =~= seq!['\n'] + v.drop_first());
        lemma_content_after_newline(v.drop_first());
    }
}

proof fn lemma_content_strip_trailing(v: Seq<char>)
    ensures
        content_lines(raw_lines(strip_trailing(v, '\n'))) == content_lines(raw_lines(v)),
    decreases v.len(),
{
    if v.len() > 0 && v.last() == '\n' {
        lemma_content_strip_trailing(v.drop_last());
        assert(v =~= v.drop_last() + seq!['\n']);
        lemma_content_before_newline(v.drop_last());
    }
}

proof fn lemma_content_squeeze(ls: Seq<Seq<char>>, pb: bool)
    requires
        forall|i: int, k: int| 0 <= i < ls.len() && 0 <= k < ls[i].len() ==> ls[i][k] != '\n',
    ensures
        content_lines(raw_lines(squeeze_lines(ls, pb))) == content_lines(ls),
    decreases ls.len(),
{
    if ls.len() == 0 {
        assert(raw_lines(Seq::<char>::empty()) =~= Seq::<Seq<char>>::empty());
    } else {
        let rest = ls.drop_first();
        assert forall|i: int, k: int| 0 <= i < rest.len() && 0 <= k < rest[i].len() implies rest[i][k]
            != '\n' by {
            assert(rest[i] == ls[i + 1]);
        }
        let t = trim_end(ls[0]);
        let tail = squeeze_lines(rest, t.len() == 0);
        lemma_content_squeeze(rest, t.len() == 0);
        if t.len() == 0 {
            if pb {
                assert(squeeze_lines(ls, pb) =~= tail);
            } else {
                assert(squeeze_lines(ls, pb) =~= seq!['\n'] + tail);
                lemma_content_after_newline(tail);
            }
            assert(content_lines(ls) =~= content_lines(rest));
        } else {
            lemma_trim_end_prefix(ls[0]);
            assert forall|k: int| 0 <= k < t.len() implies t[k] != '\n' by {
                assert(t[k] == ls[0][k]);
            }
            let line = t + seq!['\n'];
            assert(squeeze_lines(ls, pb) =~= line + tail);
            lemma_raw_lines_concat(line, tail);
            lemma_first_index_concat(t, seq!['\n'], '\n');
            lemma_first_index_bounds(t, '\n');
            assert(first_index(t, '\n') == t.len());
            assert(first_index(seq!['\n'], '\n') == 0);
            assert(line.take(t.len() as int) =~= t);
            assert(line.skip(t.len() as int + 1) =~= Seq::<char>::empty());
            assert(raw_lines(line.skip(t.len() as int + 1)) =~= Seq::<Seq<char>>::empty());
            assert(raw_lines(line) =~= seq![t]);
            lemma_content_concat(seq![t], raw_lines(tail));
            assert(trim_end(t) == t);
            assert(seq![t].drop_first() =~= Seq::<Seq<char>>::empty());
            assert(content_lines(seq![t].drop_first()) =~= Seq::<Seq<char>>::empty());
            assert(seq![t][0] == t);
            assert(content_lines(seq![t]) =~= seq![t] + Seq::<Seq<char>>::empty());
        }
    }
}

/// Law: normalising keeps the text: the lines of `normalize(s)` that are not
/// empty are, in order, the lines of `s` that are not blank, each without
/// its trailing whitespace. (The lines of a normal text have no trailing
/// whitespace, see `lemma_normal_form_facts`.)
pub proof fn lemma_normalize_keeps_content(s: Seq<char>)
    ensures
        content_lines(raw_lines(normalized(s))) == content_lines(raw_lines(s)),
{
    let q = squeeze_lines(raw_lines(s), false);
    lemma_raw_lines_no_newline(s);
    lemma_content_squeeze(raw_lines(s), false);
    lemma_content_strip_leading(q);
    lemma_content_strip_trailing(strip_leading(q, '\n'));
}

} // verus!

verus! {

/// The lines of `s` as `str::lines` gives them, each without trailing
/// whitespace.
pub open spec fn trimmed_lines(s: Seq<char>) -> Seq<Seq<char>> {
    raw_lines(s).map_values(|l: Seq<char>| trim_end(l))
}

/// `ls` with each run of empty lines made a single empty line;
/// `prev_blank` says whether the line before `ls` was empty.
pub open spec fn collapse_blank_runs(ls: Seq<Seq<char>>, prev_blank: bool) -> Seq<Seq<char>>
    decreases ls.len(),
{
    if ls.len() == 0 {
        seq![]
    } else if ls[0].len() == 0 {
        (if prev_blank {
            seq![]
        } else {
            seq![Seq::<char>::empty()]
        }) + collapse_blank_runs(ls.drop_first(), true)
    } else {
        seq![ls[0]] + collapse_blank_runs(ls.drop_first(), false)
    }
}

/// `ls` without its empty lines at the start.
pub open spec fn drop_blank_start(ls: Seq<Seq<char>>) -> Seq<Seq<char>>
    decreases ls.len(),
{
    if ls.len() > 0 && ls[0].len() == 0 {
        drop_blank_start(ls.drop_first())
    } else {
        ls
    }
}

/// `ls` without its empty lines at the end.
pub open spec fn drop_blank_end(ls: Seq<Seq<char>>) -> Seq<Seq<char>>
    decreases ls.len(),
{
    if ls.len() > 0 && ls.last().len() == 0 {
        drop_blank_end(ls.drop_last())
    } else {
        ls
    }
}

/// The lines `ls`, each followed by a newline.
pub open spec fn terminated(ls: Seq<Seq<char>>) -> Seq<char>
    decreases ls.len(),
{
    if ls.len() == 0 {
        seq![]
    } else {
        ls[0] + seq!['\n'] + terminated(ls.drop_first())
    }
}

/// No line of `ls` holds a newline.
pub open spec fn newline_free(ls: Seq<Seq<char>>) -> bool {
    forall|i: int, k: int| 0 <= i < ls.len() && 0 <= k < ls[i].len() ==> ls[i][k] != '\n'
}

proof fn lemma_newline_free_rest(ls: Seq<Seq<char>>)
    requires
        newline_free(ls),
        ls.len() > 0,
    ensures
        newline_free(ls.drop_first()),
        newline_free(ls.drop_last()),
{
    let r = ls.drop_first();
    assert forall|i: int, k: int| 0 <= i < r.len() && 0 <= k < r[i].len() implies r[i][k] != '\n' by {
        assert(r[i] == ls[i + 1]);
    }
    let d = ls.drop_last();
    assert forall|i: int, k: int| 0 <= i < d.len() && 0 <= k < d[i].len() implies d[i][k] != '\n' by {
        assert(d[i] == ls[i]);
    }
}

proof fn lemma_squeeze_is_terminated(ls: Seq<Seq<char>>, pb: bool)
    ensures
        squeeze_lines(ls, pb) == terminated(
            collapse_blank_runs(ls.map_values(|l: Seq<char>| trim_end(l)), pb),
        ),
    decreases ls.len(),
{
    let m = ls.map_values(|l: Seq<char>| trim_end(l));
    if ls.len() == 0 {
        assert(m =~= Seq::<Seq<char>>::empty());
    } else {
        let rest = ls.drop_first();
        assert(m.drop_first() =~= rest.map_values(|l: Seq<char>| trim_end(l)));
        assert(m[0] == trim_end(ls[0]));
        let t = trim_end(ls[0]);
        lemma_squeeze_is_terminated(rest, t.len() == 0);
        let c = collapse_blank_runs(m.drop_first(), t.len() == 0);
        if t.len() == 0 {
            if !pb {
                let e = Seq::<char>::empty();
                assert((seq![e] + c)[0] == e);
                assert((seq![e] + c).drop_first() =~= c);
                assert(e + seq!['\n'] =~= seq!['\n']);
            } else {
                assert(Seq::<Seq<char>>::empty() + c =~= c);
            }
        } else {
            assert((seq![t] + c)[0] == t);
            assert((seq![t] + c).drop_first() =~= c);
        }
    }
}

proof fn lemma_collapse_newline_free(ls: Seq<Seq<char>>, pb: bool)
    requires
        newline_free(ls),
    ensures
        newline_free(collapse_blank_runs(ls, pb)),
    decreases ls.len(),
{
    if ls.len() > 0 {
        lemma_newline_free_rest(ls);
        let rest = ls.drop_first();
        lemma_collapse_newline_free(rest, ls[0].len() == 0);
        let c = collapse_blank_runs(rest, ls[0].len() == 0);
        let r = collapse_blank_runs(ls, pb);
        let h: Seq<Seq<char>> = if ls[0].len() == 0 {
            if pb {
                seq![]
            } else {
                seq![Seq::<char>::empty()]
            }
        } else {
            seq![ls[0]]
        };
        assert(r == h + c);
        assert forall|i: int, k: int| 0 <= i < r.len() && 0 <= k < r[i].len() implies r[i][k] != '\n' by {
            if i < h.len() {
                assert(r[i] == h[i]);
            } else {
                assert(r[i] == c[i - h.len()]);
            }
        }
    }
}

proof fn lemma_strip_leading_terminated(d: Seq<Seq<char>>)
    requires
        newline_free(d),
    ensures
        strip_leading(terminated(d), '\n') == terminated(drop_blank_start(d)),
        newline_free(drop_blank_start(d)),
    decreases d.len(),
{
    if d.len() > 0 {
        lemma_newline_free_rest(d);
        let rest = d.drop_first();
        let t = terminated(d);
        if d[0].len() == 0 {
            lemma_strip_leading_terminated(rest);
            assert(t =~= seq!['\n'] + terminated(rest));
            assert(t.drop_first() =~= terminated(rest));
        } else {
            assert(t[0] == d[0][0]);
        }
    }
}

proof fn lemma_terminated_last(d: Seq<Seq<char>>)
    requires
        d.len() > 0,
    ensures
        terminated(d) == terminated(d.drop_last()) + d.last() + seq!['\n'],
        terminated(d) == join(d, "\n"@) + seq!['\n'],
    decreases d.len(),
{
    let rest = d.drop_first();
    if d.len() == 1 {
        assert(rest =~= Seq::<Seq<char>>::empty());
        assert(d.drop_last() =~= Seq::<Seq<char>>::empty());
        assert(terminated(rest) == Seq::<char>::empty());
        assert(terminated(d.drop_last()) == Seq::<char>::empty());
        assert(terminated(d) =~= d[0] + seq!['\n']);
    } else {
        lemma_terminated_last(rest);
        lemma_terminated_last(d.drop_last());
        assert(rest.drop_last() =~= d.drop_last().drop_first());
        assert(rest.last() == d.last());
        assert(d.drop_last()[0] == d[0]);
        assert(terminated(d) =~= terminated(d.drop_last()) + d.last() + seq!['\n']);
        assert(terminated(d) =~= join(d, "\n"@) + seq!['\n']) by {
            reveal_strlit("\n");
        }
    }
}

proof fn lemma_join_last(d: Seq<Seq<char>>)
    requires
        d.len() > 0,
        d.last().len() > 0,
    ensures
        join(d, "\n"@).len() > 0,
        join(d, "\n"@).last() == d.last().last(),
{
}

proof fn lemma_strip_trailing_terminated(d: Seq<Seq<char>>)
    requires
        newline_free(d),
    ensures
        strip_trailing(terminated(d), '\n') == join(drop_blank_end(d), "\n"@),
    decreases d.len(),
{
    if d.len() == 0 {
        assert(terminated(d) == Seq::<char>::empty());
        assert(drop_blank_end(d) == d);
    } else {
        lemma_newline_free_rest(d);
        lemma_terminated_last(d);
        let t = terminated(d);
        if d.last().len() == 0 {
            lemma_strip_trailing_terminated(d.drop_last());
            assert(t =~= terminated(d.drop_last()) + seq!['\n']);
            assert(t.drop_last() =~= terminated(d.drop_last()));
            assert(t.last() == '\n');
            assert(strip_trailing(t, '\n') == strip_trailing(t.drop_last(), '\n'));
            assert(drop_blank_end(d) == drop_blank_end(d.drop_last()));
        } else {
            let j = join(d, "\n"@);
            assert(t.drop_last() =~= j);
            assert(t.last() == '\n');
            assert(strip_trailing(t, '\n') == strip_trailing(j, '\n'));
            lemma_join_last(d);
            let li = d.len() - 1;
            assert(d.last() == d[li]);
            assert(d[li][d[li].len() - 1] != '\n');
            assert(strip_trailing(j, '\n') == j);
            assert(drop_blank_end(d) == d);
        }
    }
}

/// Law: normalising is joining the lines: take the lines of `s`, each
/// without trailing whitespace, make each run of empty lines one empty
/// line, drop the empty lines at both ends, and join what is left with
/// newlines (so a text of blank lines gives the empty text).
pub proof fn lemma_normalize_joins_lines(s: Seq<char>)
    ensures
        normalized(s) == join(
            drop_blank_end(drop_blank_start(collapse_blank_runs(trimmed_lines(s), false))),
            "\n"@,
        ),
{
    let ls = raw_lines(s);
    let tl = trimmed_lines(s);
    lemma_raw_lines_no_newline(s);
    assert forall|i: int, k: int| 0 <= i < tl.len() && 0 <= k < tl[i].len() implies tl[i][k] != '\n' by {
        lemma_trim_end_prefix(ls[i]);
        assert(tl[i] == trim_end(ls[i]));
        assert(tl[i][k] == ls[i][k]);
    }
    lemma_squeeze_is_terminated(ls, false);
    let c = collapse_blank_runs(tl, false);
    lemma_collapse_newline_free(tl, false);
    lemma_strip_leading_terminated(c);
    lemma_strip_trailing_terminated(drop_blank_start(c));
}

} // verus!
