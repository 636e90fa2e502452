//! What holds of every justified text.

use vstd::prelude::*;
use vstd::arithmetic::div_mod::lemma_fundamental_div_mod;
use vstd::seq_lib::lemma_flatten_concat;
use crate::text::{is_word, lemma_words_are_words, lemma_words_nonempty, white_space, words};
use crate::layout::{
    gap_width, gapped, hard_wrap, justified, lemma_room_step, line_tail, pack, room_after,
    spaces,
};

verus! {

/// `t` has no line break.
pub open spec fn no_break(t: Seq<char>) -> bool {
    forall|i: int| 0 <= i < t.len() ==> t[i] != '\n'
}

/// `t` is lines of exactly `width` characters without line breaks, joined by single
/// line breaks.
pub open spec fn lines_of_width(t: Seq<char>, width: nat) -> bool
    decreases t.len(),
{
    if t.len() <= width {
        t.len() == width && no_break(t)
    } else {
        no_break(t.take(width as int)) && t[width as int] == '\n' && lines_of_width(
            t.skip(width + 1 as int),
            width,
        )
    }
}

/// Characters that the words `ws` take on a line: each word and one space before it.
pub open spec fn span(ws: Seq<Seq<char>>) -> nat
    decreases ws.len(),
{
    if ws.len() == 0 {
        0
    } else {
        span(ws.drop_last()) + ws.last().len() + 1
    }
}

/// Text made of only white space has no words, and so justifies to nothing.
pub proof fn blank_text_justifies_to_nothing(s: Seq<char>, width: nat)
    requires
        forall|i: int| 0 <= i < s.len() ==> white_space(#[trigger] s[i]),
    ensures
        words(s).len() == 0,
        justified(words(s), width) == Seq::<char>::empty(),
    decreases s.len(),
{
    if s.len() > 0 {
        let p = s.drop_last();
        assert forall|i: int| 0 <= i < p.len() implies white_space(#[trigger] p[i]) by {
            assert(p[i] == s[i]);
        }
        blank_text_justifies_to_nothing(p, width);
        assert(white_space(s[s.len() - 1]));
    }
}

/// On a line with `g` gaps, a gap is never narrower than one further right, nor more
/// than one space wider than any other.
pub proof fn gaps_are_even(extra: nat, g: nat, i: nat, j: nat)
    requires
        i <= j < g,
    ensures
        gap_width(extra, g, j) <= gap_width(extra, g, i),
        gap_width(extra, g, i) <= gap_width(extra, g, j) + 1,
{
}

proof fn lemma_join_lines(a: Seq<char>, b: Seq<char>, width: nat)
    requires
        width >= 1,
        lines_of_width(a, width),
        lines_of_width(b, width),
    ensures
        lines_of_width(a + seq!['\n'] + b, width),
    decreases a.len(),
{
    let t = a + seq!['\n'] + b;
    let w = width as int;
    if a.len() <= width {
        assert(t.take(w) =~= a);
        assert(t.skip(w + 1) =~= b);
    } else {
        let a2 = a.skip(w + 1);
        lemma_join_lines(a2, b, width);
        assert(t.take(w) =~= a.take(w));
        assert(t.skip(w + 1) =~= a2 + seq!['\n'] + b);
    }
}

proof fn lemma_wrapped_line(w: Seq<char>, t: Seq<char>, width: nat)
    requires
        width >= 1,
        w.len() > 0,
        no_break(w),
        no_break(t),
        t.len() == room_after(w.len(), width),
    ensures
        lines_of_width(hard_wrap(w, width) + t, width),
    decreases w.len(),
{
    let n = (w.len() - 1) as nat;
    let c = w.last();
    let p = w.drop_last();
    lemma_room_step(n, width);
    let ct = seq![c] + t;
    assert(no_break(ct)) by {
        assert forall|i: int| 0 <= i < ct.len() implies ct[i] != '\n' by {
            if i > 0 {
                assert(ct[i] == t[i - 1]);
            }
        }
    }
    assert forall|i: int| 0 <= i < p.len() implies p[i] != '\n' by {
        assert(p[i] == w[i]);
    }
    if n == 0 {
        assert(hard_wrap(p, width) =~= Seq::<char>::empty());
        assert(hard_wrap(w, width) + t =~= ct);
    } else if n % width == 0 {
        lemma_wrapped_line(p, Seq::<char>::empty(), width);
        assert(hard_wrap(p, width) + Seq::<char>::empty() =~= hard_wrap(p, width));
        lemma_join_lines(hard_wrap(p, width), ct, width);
        assert(hard_wrap(w, width) + t =~= hard_wrap(p, width) + seq!['\n'] + ct);
    } else {
        lemma_wrapped_line(p, ct, width);
        assert(hard_wrap(w, width) + t =~= hard_wrap(p, width) + ct);
    }
}

proof fn lemma_span_front(ws: Seq<Seq<char>>)
    requires
        ws.len() > 0,
    ensures
        span(ws) == ws[0].len() + 1 + span(ws.drop_first()),
    decreases ws.len(),
{
    if ws.len() > 1 {
        lemma_span_front(ws.drop_last());
        assert(ws.drop_last().drop_first() =~= ws.drop_first().drop_last());
        assert(ws.drop_first().last() == ws.last());
        assert(ws.drop_last()[0] == ws[0]);
    } else {
        assert(span(ws.drop_last()) == 0);
        assert(span(ws.drop_first()) == 0);
    }
}

proof fn lemma_pack(ws: Seq<Seq<char>>, room: nat)
    ensures
        pack(ws, room).0 <= ws.len(),
        room == span(ws.take(pack(ws, room).0 as int)) + pack(ws, room).1,
    decreases ws.len(),
{
    if ws.len() > 0 && ws[0].len() + 1 <= room {
        let rest = ws.drop_first();
        let room2 = (room - ws[0].len() - 1) as nat;
        lemma_pack(rest, room2);
        let n = pack(rest, room2).0;
        let front = ws.take(n + 1 as int);
        lemma_span_front(front);
        assert(front.drop_first() =~= rest.take(n as int));
    } else {
        assert(ws.take(0).len() == 0);
    }
}

proof fn lemma_gapped(ws: Seq<Seq<char>>, extra: nat, k: nat)
    requires
        ws.len() >= 1,
        k <= ws.len(),
        forall|i: int| 0 <= i < ws.len() ==> is_word(#[trigger] ws[i]),
    ensures
        gapped(ws, extra, k).len() == span(ws.take(k as int)) + k * (extra / ws.len()) + if k
            < extra % ws.len() {
            k
        } else {
            extra % ws.len()
        },
        no_break(gapped(ws, extra, k)),
    decreases k,
{
    let g = ws.len();
    if k > 0 {
        let k1 = (k - 1) as nat;
        lemma_gapped(ws, extra, k1);
        assert(ws.take(k as int).drop_last() =~= ws.take(k1 as int));
        let q = extra / g;
        assert(k * q == k1 * q + q) by (nonlinear_arith)
            requires
                k == k1 + 1,
        ;
        let prev = gapped(ws, extra, k1);
        let sp = spaces(gap_width(extra, g, k1));
        let w = ws[k1 as int];
        assert(is_word(w));
        let cur = prev + sp + w;
        assert(cur == gapped(ws, extra, k));
        assert forall|i: int| 0 <= i < cur.len() implies cur[i] != '\n' by {
            if i < prev.len() {
                assert(cur[i] == prev[i]);
            } else if i < prev.len() + sp.len() {
                assert(cur[i] == ' ');
            } else {
                assert(cur[i] == w[i - prev.len() - sp.len()]);
                assert(!white_space(w[i - prev.len() - sp.len()]));
            }
        }
    } else {
        assert(ws.take(0).len() == 0);
    }
}

proof fn lemma_line_tail(ws: Seq<Seq<char>>, extra: nat)
    requires
        forall|i: int| 0 <= i < ws.len() ==> is_word(#[trigger] ws[i]),
    ensures
        line_tail(ws, extra).len() == span(ws) + extra,
        no_break(line_tail(ws, extra)),
{
    if ws.len() > 0 {
        let g = ws.len();
        lemma_gapped(ws, extra, g);
        assert(ws.take(g as int) =~= ws);
        lemma_fundamental_div_mod(extra as int, g as int);
        assert(g * (extra / g) == (g as int) * ((extra as int) / (g as int)));
    }
}

proof fn lemma_justified_lines(ws: Seq<Seq<char>>, width: nat)
    requires
        width >= 1,
        ws.len() > 0,
        forall|i: int| 0 <= i < ws.len() ==> is_word(#[trigger] ws[i]),
    ensures
        lines_of_width(justified(ws, width), width),
    decreases ws.len(),
{
    let first = ws[0];
    let room0 = room_after(first.len(), width);
    let others = ws.drop_first();
    lemma_pack(others, room0);
    let (n, r) = pack(others, room0);
    let on_line = ws.subrange(1, 1 + n as int);
    assert(on_line =~= others.take(n as int));
    assert forall|i: int| 0 <= i < on_line.len() implies is_word(#[trigger] on_line[i]) by {
        assert(on_line[i] == ws[i + 1]);
    }
    lemma_line_tail(on_line, r);
    assert(is_word(first));
    assert(no_break(first)) by {
        assert forall|i: int| 0 <= i < first.len() implies first[i] != '\n' by {
            assert(!white_space(first[i]));
        }
    }
    lemma_wrapped_line(first, line_tail(on_line, r), width);
    if 1 + n < ws.len() {
        let later = ws.skip(1 + n as int);
        assert forall|i: int| 0 <= i < later.len() implies is_word(#[trigger] later[i]) by {
            assert(later[i] == ws[i + 1 + n]);
        }
        lemma_justified_lines(later, width);
        lemma_join_lines(
            hard_wrap(first, width) + line_tail(on_line, r),
            justified(later, width),
            width,
        );
    }
}

/// Every line of a justified text has exactly `width` characters: the text is empty,
/// or it is lines of `width` characters joined by single line breaks.
pub proof fn every_line_has_the_width(s: Seq<char>, width: nat)
    requires
        width >= 1,
    ensures
        justified(words(s), width).len() == 0 || lines_of_width(justified(words(s), width), width),
{
    lemma_words_are_words(s);
    if words(s).len() > 0 {
        lemma_justified_lines(words(s), width);
    }
}

/// The characters of `t` that are not white space, in order.
pub open spec fn non_white(t: Seq<char>) -> Seq<char> {
    t.filter(|c: char| !white_space(c))
}

proof fn lemma_non_white_concat(a: Seq<char>, b: Seq<char>)
    ensures
        non_white(a + b) == non_white(a) + non_white(b),
{
    Seq::filter_distributes_over_add(a, b, |c: char| !white_space(c));
}

proof fn lemma_non_white_push(a: Seq<char>, c: char)
    ensures
        non_white(a.push(c)) == if white_space(c) {
            non_white(a)
        } else {
            non_white(a).push(c)
        },
{
    a.lemma_filter_push(c, |c: char| !white_space(c));
}

proof fn lemma_non_white_of_word(w: Seq<char>)
    requires
        forall|i: int| 0 <= i < w.len() ==> !white_space(#[trigger] w[i]),
    ensures
        non_white(w) == w,
    decreases w.len(),
{
    if w.len() > 0 {
        let p = w.drop_last();
        assert forall|i: int| 0 <= i < p.len() implies !white_space(#[trigger] p[i]) by {
            assert(p[i] == w[i]);
        }
        lemma_non_white_of_word(p);
        lemma_non_white_push(p, w.last());
        assert(p.push(w.last()) =~= w);
    } else {
        assert(non_white(w).len() == 0) by {
            w.lemma_filter_len(|c: char| !white_space(c));
        }
        assert(non_white(w) =~= w);
    }
}

proof fn lemma_non_white_of_spaces(n: nat)
    ensures
        non_white(spaces(n)) == Seq::<char>::empty(),
    decreases n,
{
    if n > 0 {
        let p = spaces((n - 1) as nat);
        lemma_non_white_of_spaces((n - 1) as nat);
        lemma_non_white_push(p, ' ');
        assert(p.push(' ') =~= spaces(n));
    } else {
        spaces(0).lemma_filter_len(|c: char| !white_space(c));
        assert(non_white(spaces(0)) =~= Seq::<char>::empty());
    }
}

proof fn lemma_non_white_of_wrap(w: Seq<char>, width: nat)
    requires
        is_word(w),
    ensures
        non_white(hard_wrap(w, width)) == w,
    decreases w.len(),
{
    let p = w.drop_last();
    let c = w.last();
    let n = (w.len() - 1) as nat;
    if n == 0 {
        assert(hard_wrap(p, width) =~= Seq::<char>::empty());
        assert(hard_wrap(w, width) =~= seq![c]);
        assert(w =~= seq![c]);
        lemma_non_white_of_word(w);
    } else {
        assert(is_word(p)) by {
            assert forall|i: int| 0 <= i < p.len() implies !white_space(#[trigger] p[i]) by {
                assert(p[i] == w[i]);
            }
        }
        lemma_non_white_of_wrap(p, width);
        let hp = hard_wrap(p, width);
        assert(!white_space(c));
        if n % width == 0 {
            assert(hard_wrap(w, width) =~= hp.push('\n').push(c));
            lemma_non_white_push(hp, '\n');
            lemma_non_white_push(hp.push('\n'), c);
            assert(non_white(hard_wrap(w, width)) == p.push(c));
        } else {
            assert(hard_wrap(w, width) == hp.push(c));
            lemma_non_white_push(hp, c);
            assert(non_white(hard_wrap(w, width)) == p.push(c));
        }
        assert(p.push(c) =~= w);
    }
}

proof fn lemma_non_white_of_gapped(ws: Seq<Seq<char>>, extra: nat, k: nat)
    requires
        k <= ws.len(),
        forall|i: int| 0 <= i < ws.len() ==> is_word(#[trigger] ws[i]),
    ensures
        non_white(gapped(ws, extra, k)) == ws.take(k as int).flatten(),
    decreases k,
{
    if k > 0 {
        let k1 = (k - 1) as nat;
        lemma_non_white_of_gapped(ws, extra, k1);
        let prev = gapped(ws, extra, k1);
        let sp = spaces(gap_width(extra, ws.len(), k1));
        let w = ws[k1 as int];
        assert(is_word(w));
        lemma_non_white_concat(prev, sp);
        lemma_non_white_concat(prev + sp, w);
        lemma_non_white_of_spaces(gap_width(extra, ws.len(), k1));
        lemma_non_white_of_word(w);
        assert(ws.take(k as int) =~= ws.take(k1 as int).push(w));
        ws.take(k1 as int).lemma_flatten_push(w);
        assert(non_white(prev) + Seq::<char>::empty() =~= non_white(prev));
    } else {
        assert(ws.take(0) =~= Seq::<Seq<char>>::empty());
        gapped(ws, extra, 0).lemma_filter_len(|c: char| !white_space(c));
        assert(non_white(gapped(ws, extra, 0)) =~= Seq::<char>::empty());
    }
}

proof fn lemma_non_white_of_justified(ws: Seq<Seq<char>>, width: nat)
    requires
        forall|i: int| 0 <= i < ws.len() ==> is_word(#[trigger] ws[i]),
    ensures
        non_white(justified(ws, width)) == ws.flatten(),
    decreases ws.len(),
{
    if ws.len() == 0 {
        Seq::<char>::empty().lemma_filter_len(|c: char| !white_space(c));
        assert(non_white(justified(ws, width)) =~= ws.flatten());
    } else {
        let first = ws[0];
        let room0 = room_after(first.len(), width);
        let others = ws.drop_first();
        lemma_pack(others, room0);
        let (n, r) = pack(others, room0);
        let on_line = ws.subrange(1, 1 + n as int);
        assert forall|i: int| 0 <= i < on_line.len() implies is_word(#[trigger] on_line[i]) by {
            assert(on_line[i] == ws[i + 1]);
        }
        assert(is_word(first));
        lemma_non_white_of_wrap(first, width);
        let tail = line_tail(on_line, r);
        if on_line.len() == 0 {
            lemma_non_white_of_spaces(r);
            assert(on_line.flatten() =~= Seq::<char>::empty());
        } else {
            lemma_non_white_of_gapped(on_line, r, on_line.len());
            assert(on_line.take(on_line.len() as int) =~= on_line);
        }
        let line = hard_wrap(first, width) + tail;
        lemma_non_white_concat(hard_wrap(first, width), tail);
        let head = ws.take(1 + n as int);
        assert(head =~= seq![first] + on_line);
        lemma_flatten_concat(seq![first], on_line);
        seq![first].lemma_flatten_one_element();
        if 1 + n < ws.len() {
            let later = ws.skip(1 + n as int);
            assert forall|i: int| 0 <= i < later.len() implies is_word(#[trigger] later[i]) by {
                assert(later[i] == ws[i + 1 + n]);
            }
            lemma_non_white_of_justified(later, width);
            lemma_non_white_concat(line, seq!['\n']);
            lemma_non_white_concat(line + seq!['\n'], justified(later, width));
            lemma_non_white_push(Seq::<char>::empty(), '\n');
            Seq::<char>::empty().lemma_filter_len(|c: char| !white_space(c));
            assert(Seq::<char>::empty().push('\n') =~= seq!['\n']);
            assert(ws =~= head + later);
            lemma_flatten_concat(head, later);
            assert(non_white(line) + Seq::<char>::empty() =~= non_white(line));
        } else {
            assert(head =~= ws);
        }
    }
}

/// Justifying keeps every character that is not white space, in order, and adds none.
pub proof fn justifying_keeps_the_text(s: Seq<char>, width: nat)
    ensures
        non_white(justified(words(s), width)) == non_white(s),
{
    lemma_words_are_words(s);
    lemma_non_white_of_justified(words(s), width);
    lemma_words_flatten(s);
}

proof fn lemma_words_flatten(s: Seq<char>)
    ensures
        words(s).flatten() == non_white(s),
    decreases s.len(),
{
    if s.len() == 0 {
        s.lemma_filter_len(|c: char| !white_space(c));
        assert(non_white(s) =~= Seq::<char>::empty());
    } else {
        let p = s.drop_last();
        let c = s.last();
        let prev = words(p);
        lemma_words_flatten(p);
        lemma_non_white_push(p, c);
        assert(p.push(c) =~= s);
        if white_space(c) {
        } else if s.len() >= 2 && !white_space(s[s.len() - 2]) {
            lemma_words_nonempty(p);
            let init = prev.drop_last();
            assert(prev =~= init.push(prev.last()));
            init.lemma_flatten_push(prev.last());
            assert(words(s) =~= init.push(prev.last().push(c)));
            init.lemma_flatten_push(prev.last().push(c));
            assert(init.flatten() + prev.last().push(c) =~= (init.flatten() + prev.last()).push(c));
        } else {
            prev.lemma_flatten_push(seq![c]);
            assert(prev.flatten() + seq![c] =~= prev.flatten().push(c));
        }
    }
}

proof fn lemma_words_after_spaces(a: Seq<char>, k: nat)
    ensures
        words(a + spaces(k)) == words(a),
    decreases k,
{
    if k == 0 {
        assert(a + spaces(0) =~= a);
    } else {
        lemma_words_after_spaces(a, (k - 1) as nat);
        assert((a + spaces(k)).drop_last() =~= a + spaces((k - 1) as nat));
        assert((a + spaces(k)).last() == ' ');
    }
}

proof fn lemma_words_after_break(b: Seq<char>, w: Seq<char>)
    requires
        b.len() == 0 || white_space(b.last()),
        is_word(w),
    ensures
        words(b + w) == words(b).push(w),
    decreases w.len(),
{
    let s = b + w;
    let p = w.drop_last();
    let c = w.last();
    assert(s.drop_last() =~= b + p);
    assert(s.last() == c);
    if w.len() == 1 {
        assert(b + p =~= b);
        assert(w =~= seq![c]);
        if s.len() >= 2 {
            assert(s[s.len() - 2] == b.last());
        }
    } else {
        assert(is_word(p)) by {
            assert forall|i: int| 0 <= i < p.len() implies !white_space(#[trigger] p[i]) by {
                assert(p[i] == w[i]);
            }
        }
        lemma_words_after_break(b, p);
        assert(s[s.len() - 2] == w[w.len() - 2]);
        assert(p.push(c) =~= w);
        assert(words(b).push(p).update(words(b).len() as int, p.push(c)) =~= words(b).push(w));
    }
}

proof fn lemma_words_of_gapped(first: Seq<char>, ws: Seq<Seq<char>>, extra: nat, k: nat)
    requires
        is_word(first),
        k <= ws.len(),
        forall|i: int| 0 <= i < ws.len() ==> is_word(#[trigger] ws[i]),
    ensures
        words(first + gapped(ws, extra, k)) == seq![first] + ws.take(k as int),
    decreases k,
{
    if k == 0 {
        assert(first + gapped(ws, extra, 0) =~= Seq::<char>::empty() + first);
        lemma_words_after_break(Seq::<char>::empty(), first);
        assert(words(Seq::<char>::empty()) =~= Seq::<Seq<char>>::empty());
        assert(ws.take(0) =~= Seq::<Seq<char>>::empty());
        assert(seq![first] + ws.take(0) =~= Seq::<Seq<char>>::empty().push(first));
    } else {
        let k1 = (k - 1) as nat;
        lemma_words_of_gapped(first, ws, extra, k1);
        let g = gap_width(extra, ws.len(), k1);
        let b = first + gapped(ws, extra, k1) + spaces(g);
        lemma_words_after_spaces(first + gapped(ws, extra, k1), g);
        assert(is_word(ws[k1 as int]));
        lemma_words_after_break(b, ws[k1 as int]);
        assert(first + gapped(ws, extra, k) =~= b + ws[k1 as int]);
        assert(seq![first] + ws.take(k as int) =~= (seq![first] + ws.take(k1 as int)).push(
            ws[k1 as int],
        ));
    }
}

proof fn lemma_wrap_of_short_word(w: Seq<char>, width: nat)
    requires
        w.len() <= width,
    ensures
        hard_wrap(w, width) == w,
    decreases w.len(),
{
    if w.len() > 0 {
        let p = w.drop_last();
        lemma_wrap_of_short_word(p, width);
        let n = (w.len() - 1) as nat;
        if n > 0 {
            vstd::arithmetic::div_mod::lemma_small_mod(n, width);
        }
        assert(p.push(w.last()) =~= w);
    }
}

proof fn lemma_wrap_of_long_word(w: Seq<char>, width: nat)
    requires
        width >= 1,
        w.len() > width,
    ensures
        hard_wrap(w, width).len() > width,
        hard_wrap(w, width)[width as int] == '\n',
    decreases w.len(),
{
    let p = w.drop_last();
    let n = (w.len() - 1) as nat;
    if n == width {
        lemma_wrap_of_short_word(p, width);
        vstd::arithmetic::div_mod::lemma_mod_self_0(width as int);
    } else {
        lemma_wrap_of_long_word(p, width);
    }
}

/// A justified text of one line justifies to itself again.
pub proof fn one_line_is_justified_again_unchanged(s: Seq<char>, width: nat)
    requires
        width >= 1,
        no_break(justified(words(s), width)),
    ensures
        justified(words(justified(words(s), width)), width) == justified(words(s), width),
{
    let ws = words(s);
    let t = justified(ws, width);
    lemma_words_are_words(s);
    if ws.len() == 0 {
        assert(words(t) =~= Seq::<Seq<char>>::empty());
    } else {
        let first = ws[0];
        let room0 = room_after(first.len(), width);
        let others = ws.drop_first();
        lemma_pack(others, room0);
        let (n, r) = pack(others, room0);
        let on_line = ws.subrange(1, 1 + n as int);
        assert forall|i: int| 0 <= i < on_line.len() implies is_word(#[trigger] on_line[i]) by {
            assert(on_line[i] == ws[i + 1]);
        }
        let line = hard_wrap(first, width) + line_tail(on_line, r);
        if 1 + n < ws.len() {
            let rest = justified(ws.skip(1 + n as int), width);
            assert(t == line + seq!['\n'] + rest);
            assert(t[line.len() as int] == '\n');
        } else {
            assert(t == line);
            assert(is_word(first));
            if first.len() > width {
                lemma_wrap_of_long_word(first, width);
                assert(t[width as int] == '\n');
            }
            lemma_wrap_of_short_word(first, width);
            if on_line.len() == 0 {
                lemma_words_after_spaces(first, r);
                lemma_words_after_break(Seq::<char>::empty(), first);
                assert(Seq::<char>::empty() + first =~= first);
                assert(words(Seq::<char>::empty()) =~= Seq::<Seq<char>>::empty());
            } else {
                lemma_words_of_gapped(first, on_line, r, on_line.len());
                assert(on_line.take(on_line.len() as int) =~= on_line);
            }
            assert(ws =~= seq![first] + on_line);
        }
    }
}

} // verus!
