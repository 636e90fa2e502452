//! Filling lines greedily and spreading the spare width over the gaps between words.

use vstd::prelude::*;
use vstd::string::StrSliceExecFns;
use vstd::arithmetic::div_mod::{lemma_fundamental_div_mod, lemma_fundamental_div_mod_converse};
use crate::text::{char_vec, push_char, split_words, string_views, words};

verus! {

/// `n` space characters.
pub open spec fn spaces(n: nat) -> Seq<char> {
    Seq::new(n, |i: int| ' ')
}

/// The contents of a sequence of string slices.
pub open spec fn str_views(v: Seq<&str>) -> Seq<Seq<char>> {
    v.map_values(|w: &str| w@)
}

/// Width of gap `i` (counted from the left) when `g` gaps share `extra` spare spaces:
/// one separating space, an even share of the spare ones, and one more for each of
/// the leftmost `extra % g` gaps.
pub open spec fn gap_width(extra: nat, g: nat, i: nat) -> nat {
    if i < extra % g {
        2 + extra / g
    } else {
        1 + extra / g
    }
}

/// The first `k` of the words `ws`, each after its gap.
pub open spec fn gapped(ws: Seq<Seq<char>>, extra: nat, k: nat) -> Seq<char>
    decreases k,
{
    if k == 0 {
        seq![]
    } else {
        gapped(ws, extra, (k - 1) as nat) + spaces(gap_width(extra, ws.len(), (k - 1) as nat))
            + ws[k - 1]
    }
}

/// What follows a line's first word: the other words with the spare width spread over
/// the gaps before them, or, without other words, the spare width as trailing spaces.
pub open spec fn line_tail(ws: Seq<Seq<char>>, extra: nat) -> Seq<char> {
    if ws.len() == 0 {
        spaces(extra)
    } else {
        gapped(ws, extra, ws.len())
    }
}

/// Room left on the current line after a word of `len` characters was set from the
/// start of a line, breaking it after every `width` characters.
pub open spec fn room_after(len: nat, width: nat) -> nat {
    if len == 0 {
        width
    } else {
        (width - 1 - (len - 1) as nat % width) as nat
    }
}

/// A word set from the start of a line: a line break follows every `width` characters
/// that more characters follow.
pub open spec fn hard_wrap(w: Seq<char>, width: nat) -> Seq<char>
    decreases w.len(),
{
    if w.len() == 0 {
        seq![]
    } else {
        let prev = hard_wrap(w.drop_last(), width);
        let n = (w.len() - 1) as nat;
        if n > 0 && n % width == 0 {
            prev + seq!['\n', w.last()]
        } else {
            prev.push(w.last())
        }
    }
}

/// How many of the words `ws` fit, in order, on a line with `room` left, each taking its
/// length and one separating space; and the room left after them.
pub open spec fn pack(ws: Seq<Seq<char>>, room: nat) -> (nat, nat)
    decreases ws.len(),
{
    if ws.len() > 0 && ws[0].len() + 1 <= room {
        let (n, r) = pack(ws.drop_first(), (room - ws[0].len() - 1) as nat);
        (n + 1, r)
    } else {
        (0, room)
    }
}

/// The words `ws` set in justified lines of `width` characters, joined by line breaks.
pub open spec fn justified(ws: Seq<Seq<char>>, width: nat) -> Seq<char>
    decreases ws.len(),
{
    if ws.len() == 0 {
        seq![]
    } else {
        let (n, r) = pack(ws.drop_first(), room_after(ws[0].len(), width));
        let line = hard_wrap(ws[0], width) + line_tail(ws.subrange(1, 1 + n as int), r);
        if 1 + n >= ws.len() {
            line
        } else {
            line + seq!['\n'] + justified(ws.skip(1 + n as int), width)
        }
    }
}

/// Relies on `String::push_str`: appends the characters of `t`.
#[verifier::external_body]
fn push_str(s: &mut String, t: &str)
    ensures
        final(s)@ == old(s)@ + t@,
{
    s.push_str(t)
}

/// Appends `n` spaces to `s`.
fn append_spaces(s: &mut String, n: u64)
    ensures
        final(s)@ == old(s)@ + spaces(n as nat),
{
    let mut k: u64 = 0;
    while k < n
        invariant
            k <= n,
            s@ == old(s)@ + spaces(k as nat),
        decreases n - k,
    {
        push_char(s, ' ');
        k += 1;
        assert(s@ =~= old(s)@ + spaces(k as nat));
    }
}

/// Appends to `output`, which ends in a line's first word, the rest of that line: the
/// words `words_after_first`, with `num_extra_spaces` spare spaces spread over the gaps
/// before them (the leftmost gaps take one more where they do not divide evenly), or
/// all as trailing spaces when there are no further words.
pub fn finalize_current_line(
    output: &mut String,
    words_after_first: &Vec<&str>,
    num_extra_spaces: u32,
)
    ensures
        final(output)@ == old(output)@ + line_tail(
            str_views(words_after_first@),
            num_extra_spaces as nat,
        ),
{
    let g = words_after_first.len();
    let extra = num_extra_spaces as u64;
    if g == 0 {
        append_spaces(output, extra);
        return;
    }
    let ghost ws = str_views(words_after_first@);
    let gaps = g as u64;
    let small_gap = 1 + extra / gaps;
    let big_gap = small_gap + 1;
    let num_big_gaps = extra % gaps;
    let mut k: usize = 0;
    while k < g
        invariant
            g == words_after_first@.len(),
            gaps == g,
            ws == str_views(words_after_first@),
            small_gap == 1 + extra / gaps,
            big_gap == small_gap + 1,
            num_big_gaps == extra % gaps,
            k <= g,
            output@ == old(output)@ + gapped(ws, extra as nat, k as nat),
        decreases g - k,
    {
        let width = if (k as u64) < num_big_gaps {
            big_gap
        } else {
            small_gap
        };
        append_spaces(output, width);
        push_str(output, words_after_first[k]);
        k += 1;
        assert(output@ =~= old(output)@ + gapped(ws, extra as nat, k as nat));
    }
}

/// Room left after one more character, given the room before it.
pub(crate) proof fn lemma_room_step(j: nat, width: nat)
    requires
        width >= 1,
    ensures
        room_after(j, width) == 0 <==> (j > 0 && j % width == 0),
        room_after(j + 1, width) == if room_after(j, width) == 0 {
            (width - 1) as nat
        } else {
            (room_after(j, width) - 1) as nat
        },
        room_after(j, width) <= width,
{
    let w = width as int;
    if j > 0 {
        let x = j - 1;
        lemma_fundamental_div_mod(x, w);
        let q = x / w;
        let m = x % w;
        assert(0 <= m < w);
        if m == w - 1 {
            assert(j == (q + 1) * w + 0) by (nonlinear_arith)
                requires
                    x == w * q + m,
                    m == w - 1,
                    j == x + 1,
            ;
            lemma_fundamental_div_mod_converse(j as int, w, q + 1, 0);
        } else {
            assert(j == q * w + (m + 1)) by (nonlinear_arith)
                requires
                    x == w * q + m,
                    j == x + 1,
            ;
            lemma_fundamental_div_mod_converse(j as int, w, q, m + 1);
        }
    } else {
        lemma_fundamental_div_mod_converse(0, w, 0, 0);
    }
}

/// Sets the words of `input` in fully justified lines of `line_width` characters: each
/// line takes as many words as fit after its first, the spare width goes to the gaps
/// (the leftmost ones first), a line of one word is padded at its end, and a word longer
/// than a line is broken after every `line_width` characters. Lines are joined by `'\n'`.
pub fn justify(input: &str, line_width: u32) -> (r: String)
    requires
        line_width >= 1,
    ensures
        r@ == justified(words(input@), line_width as nat),
{
    let ws = split_words(input);
    let ghost all = string_views(ws@);
    let ghost width = line_width as nat;
    let mut res = String::new();
    if ws.len() == 0 {
        return res;
    }
    let mut i: usize = 0;
    assert(all.skip(0) =~= all);
    loop
        invariant
            all == string_views(ws@),
            all == words(input@),
            width == line_width,
            line_width >= 1,
            i < ws.len(),
            justified(all, width) == res@ + justified(all.skip(i as int), width),
        decreases ws.len() - i,
    {
        let ghost rest = all.skip(i as int);
        let ghost base = res@;
        let first = char_vec(ws[i].as_str());
        assert(first@ == rest[0]);
        let mut room: u32 = line_width;
        let mut j: usize = 0;
        while j < first.len()
            invariant
                width == line_width,
                line_width >= 1,
                j <= first.len(),
                res@ == base + hard_wrap(first@.take(j as int), width),
                room == room_after(j as nat, width),
            decreases first.len() - j,
        {
            proof {
                lemma_room_step(j as nat, width);
                let t = first@.take(j + 1);
                assert(t.drop_last() =~= first@.take(j as int));
            }
            if room == 0 {
                push_char(&mut res, '\n');
                room = line_width;
            }
            push_char(&mut res, first[j]);
            room -= 1;
            j += 1;
            proof {
                let t = first@.take(j as int);
                assert(res@ =~= base + hard_wrap(t, width));
            }
        }
        assert(first@.take(j as int) =~= first@);
        let ghost line_start = res@;
        let ghost packed = pack(rest.drop_first(), room_after(first@.len(), width));
        let mut after: Vec<&str> = Vec::new();
        let mut k: usize = i + 1;
        assert(rest.drop_first() =~= all.skip(i + 1));
        while k < ws.len()
            invariant
                all == string_views(ws@),
                rest == all.skip(i as int),
                i < k <= ws.len(),
                packed == pack(rest.drop_first(), room_after(first@.len(), width)),
                packed == ((pack(all.skip(k as int), room as nat).0 + (k - i - 1)) as nat, pack(
                    all.skip(k as int),
                    room as nat,
                ).1),
                str_views(after@) == all.subrange(i + 1, k as int),
            ensures
                i < k <= ws.len(),
                packed == ((pack(all.skip(k as int), room as nat).0 + (k - i - 1)) as nat, pack(
                    all.skip(k as int),
                    room as nat,
                ).1),
                str_views(after@) == all.subrange(i + 1, k as int),
                k < ws.len() ==> pack(all.skip(k as int), room as nat).0 == 0,
            decreases ws.len() - k,
        {
            let word = ws[k].as_str();
            let len = word.unicode_len();
            proof {
                let s = all.skip(k as int);
                assert(s[0] == word@);
                assert(s.drop_first() =~= all.skip(k + 1));
            }
            if len >= room as usize {
                break;
            }
            assert(all[k as int] == word@);
            let ghost prev_after = after@;
            after.push(word);
            assert(str_views(after@) =~= str_views(prev_after).push(word@));
            room = room - (len as u32 + 1);
            k += 1;
            assert(str_views(after@) =~= all.subrange(i + 1, k as int));
        }
        proof {
            if k >= ws.len() {
                assert(all.skip(k as int).len() == 0);
            }
            assert(rest.subrange(1, 1 + packed.0 as int) =~= all.subrange(i + 1, k as int));
        }
        finalize_current_line(&mut res, &after, room);
        if k == ws.len() {
            return res;
        }
        push_char(&mut res, '\n');
        proof {
            assert(rest.skip(1 + packed.0 as int) =~= all.skip(k as int));
            assert(res@ =~= base + (hard_wrap(rest[0], width) + line_tail(
                rest.subrange(1, 1 + packed.0 as int),
                packed.1,
            )) + seq!['\n']);
        }
        i = k;
    }
}

} // verus!
