//! What the layer tint, a side drag, the largest family number, the
//! centre colour sample and the settings diff are for, stated over all
//! inputs.
use vstd::prelude::*;
use crate::color::{ColorSet, Rgb};
use crate::compose::tint_of;
use crate::drag::{moved_value, DragEditTarget, RectEdge};
use crate::layout::ColorType;
use crate::naming::{flip_family, flip_pair, number_after, prefix_max};
use crate::num::{int_numeral, lemma_parse_numeral};
use crate::raster::{center_window, channel_sum, mean_color, recoloured, row_samples, window_samples, Image, Pixel};
use crate::descript::{aliased_get, descript_map, diff_text, kept_lines, line_entry};
use crate::descript_laws::{
    lemma_lines_shape, lemma_pieces_no_sep, lemma_pieces_of_join_by, lemma_split_by_len, lemma_split_lines_pieces,
};
use crate::layout::split_by;
use crate::text::{join, split_lines, strip_cr};

verus! {

/// Each layer type is tinted with its own field of the colour set: base
/// with `base`, edge with `edge`, text with `text`; an untinted layer with
/// none. A tinted pixel takes the colour and keeps its alpha.
pub proof fn law_layer_tint_uses_own_colour(c: ColorSet, p: Pixel)
    ensures
        tint_of(ColorType::Base, c) == Some(c.base),
        tint_of(ColorType::Edge, c) == Some(c.edge),
        tint_of(ColorType::Text, c) == Some(c.text),
        tint_of(ColorType::NoColor, c) is None,
        recoloured(p, c.base) == Pixel(c.base.0, c.base.1, c.base.2, p.3),
{
}

/// Dragging a side of a rectangle (the text area or the input box) moves
/// it along its own axis only: a left or right side by the horizontal
/// drag, keeping y; a top or bottom side by the vertical drag, keeping x.
/// A part dragged freely moves by both.
pub proof fn law_side_moves_on_its_axis(
    target: DragEditTarget,
    edge: RectEdge,
    start: (i32, i32),
    dx: i32,
    dy: i32,
)
    ensures
        (target == DragEditTarget::ValidRect || target == DragEditTarget::CommunicateBox) ==> {
            let r = moved_value(target, Some(edge), start, dx, dy);
            &&& (edge == RectEdge::Left || edge == RectEdge::Right) ==> r.0 - start.0 == dx && r.1 == start.1
            &&& (edge == RectEdge::Top || edge == RectEdge::Bottom) ==> r.1 - start.1 == dy && r.0 == start.0
        },
        (target == DragEditTarget::Arrow0 || target == DragEditTarget::Arrow1 || target
            == DragEditTarget::ClickWait || target == DragEditTarget::SstpMarker || target
            == DragEditTarget::SstpMessage || target == DragEditTarget::OnlineMarker || target
            == DragEditTarget::Counter) ==> moved_value(target, Some(edge), start, dx, dy) == (
            start.0 + dx,
            start.1 + dy,
        ),
        moved_value(DragEditTarget::WordWrap, Some(edge), start, dx, dy) == (start.0 + dx, start.1 as int),
        moved_value(DragEditTarget::ValidRect, None, start, dx, dy) == (start.0 as int, start.1 as int),
        moved_value(DragEditTarget::CommunicateBox, None, start, dx, dy) == (start.0 as int, start.1 as int),
{
}

/// The largest number after `prefix` among the names: it is the number of
/// one of them, no name has a larger one, and there is none exactly when
/// no name has a number there.
pub proof fn law_prefix_max_is_largest(names: Seq<Seq<char>>, prefix: Seq<char>)
    ensures
        match prefix_max(names, prefix) {
            Some(m) => {
                &&& exists|i: int| 0 <= i < names.len() && number_after(#[trigger] names[i], prefix) == Some(m)
                &&& forall|i: int|
                    0 <= i < names.len() && number_after(#[trigger] names[i], prefix) is Some ==> number_after(
                        names[i],
                        prefix,
                    )->0 <= m
            },
            None => forall|i: int| 0 <= i < names.len() ==> number_after(#[trigger] names[i], prefix) is None,
        },
    decreases names.len(),
{
    if names.len() > 0 {
        let init = names.drop_last();
        law_prefix_max_is_largest(init, prefix);
        assert forall|i: int| 0 <= i < init.len() implies #[trigger] init[i] == names[i] by {}
        let last = names.len() - 1;
        assert(names[last] == names.last());
        let nl = number_after(names[last], prefix);
        match prefix_max(init, prefix) {
            Some(y) => {
                let i = choose|i: int| 0 <= i < init.len() && number_after(#[trigger] init[i], prefix) == Some(y);
                assert(names[i] == init[i]);
                assert(number_after(names[i], prefix) == Some(y));
            },
            None => {},
        }
        if nl is Some {
            assert(number_after(names[last], prefix) == nl);
        }
        assert forall|i: int|
            0 <= i < names.len() && number_after(#[trigger] names[i], prefix) is Some implies number_after(
                names[i],
                prefix,
            )->0 <= prefix_max(names, prefix)->0 by {
            if i < last {
                assert(names[i] == init[i]);
            }
        }
        if prefix_max(names, prefix) is None {
            assert forall|i: int| 0 <= i < names.len() implies number_after(#[trigger] names[i], prefix) is None by {
                if i < last {
                    assert(names[i] == init[i]);
                }
            }
        }
    }
}

/// Different numbers after one base make different names.
proof fn lemma_numbered_names_differ(b: Seq<char>, i: int, j: int)
    requires
        0 <= i,
        0 <= j,
        i != j,
    ensures
        b + int_numeral(i) != b + int_numeral(j),
{
    if b + int_numeral(i) == b + int_numeral(j) {
        assert((b + int_numeral(i)).skip(b.len() as int) =~= int_numeral(i));
        assert((b + int_numeral(j)).skip(b.len() as int) =~= int_numeral(j));
        lemma_parse_numeral(i, false, 0, i + j);
        lemma_parse_numeral(j, false, 0, i + j);
    }
}

/// The pairs from `e` on leave a name that is not one of theirs as it was.
proof fn lemma_flip_family_keeps(
    m: Map<Seq<char>, Seq<char>>,
    defined: Set<Seq<char>>,
    b: Seq<char>,
    e: int,
    max: int,
    k: Seq<char>,
)
    requires
        0 <= e,
        forall|j: int| j >= e ==> #[trigger] (b + int_numeral(j)) != k,
    ensures
        flip_family(m, defined, b, e, max).contains_key(k) == m.contains_key(k),
        m.contains_key(k) ==> flip_family(m, defined, b, e, max)[k] == m[k],
    decreases max - e + 2,
{
    if e <= max {
        assert(b + int_numeral(e) != k);
        assert(b + int_numeral(e + 1) != k);
        let m1 = flip_pair(m, defined, b + int_numeral(e), b + int_numeral(e + 1));
        lemma_flip_family_keeps(m1, defined, b, e + 2, max, k);
    }
}

/// The pair `e0, e0 + 1` of a family, reached from the even `e`.
proof fn lemma_flip_family_pair(
    m: Map<Seq<char>, Seq<char>>,
    defined: Set<Seq<char>>,
    b: Seq<char>,
    e: int,
    e0: int,
    max: int,
    x: int,
    y: int,
)
    requires
        0 <= e <= e0 <= max,
        (e0 - e) % 2 == 0,
        (x == e0 && y == e0 + 1) || (x == e0 + 1 && y == e0),
        defined.contains(b + int_numeral(x)),
        !defined.contains(b + int_numeral(y)),
    ensures
        flip_family(m, defined, b, e, max).contains_key(b + int_numeral(y)),
        flip_family(m, defined, b, e, max)[b + int_numeral(y)] == b + int_numeral(x),
    decreases e0 - e,
{
    let m1 = flip_pair(m, defined, b + int_numeral(e), b + int_numeral(e + 1));
    if e == e0 {
        let k = b + int_numeral(y);
        assert forall|j: int| j >= e + 2 implies #[trigger] (b + int_numeral(j)) != k by {
            lemma_numbered_names_differ(b, j, y);
        }
        lemma_flip_family_keeps(m1, defined, b, e + 2, max, k);
    } else {
        lemma_flip_family_pair(m1, defined, b, e + 2, e0, max, x, y);
    }
}

/// Filling in a family by mirror images: for a numbered name `b{n}` that
/// is defined while its partner (`n` with its lowest bit flipped) is not,
/// where the pair's even number is at most the family's largest number,
/// the partner is drawn from `b{n}`.
pub proof fn law_flip_family_fills_partner(
    m: Map<Seq<char>, Seq<char>>,
    defined: Set<Seq<char>>,
    b: Seq<char>,
    max: int,
    n: int,
)
    requires
        0 <= n,
        n - n % 2 <= max,
        defined.contains(b + int_numeral(n)),
        !defined.contains(b + int_numeral(if n % 2 == 0 { n + 1 } else { n - 1 })),
    ensures
        flip_family(m, defined, b, 0, max).contains_key(b + int_numeral(if n % 2 == 0 { n + 1 } else { n - 1 })),
        flip_family(m, defined, b, 0, max)[b + int_numeral(if n % 2 == 0 { n + 1 } else { n - 1 })] == b
            + int_numeral(n),
{
    let e0 = n - n % 2;
    let y = if n % 2 == 0 { n + 1 } else { n - 1 };
    lemma_flip_family_pair(m, defined, b, 0, e0, max, n, y);
}

/// Pixels that all have one colour have that colour as their mean: each
/// channel of the mean is the same channel of the pixels.
pub proof fn law_mean_of_one_colour(s: Seq<Pixel>, p: Pixel)
    requires
        s.len() > 0,
        forall|i: int| 0 <= i < s.len() ==> #[trigger] s[i] == p,
    ensures
        mean_color(s) == Rgb(p.0, p.1, p.2),
{
    lemma_channel_sum_uniform(s, p);
    let n = s.len() as int;
    assert((n * p.0 as int) / n == p.0 as int) by (nonlinear_arith)
        requires
            n > 0,
    ;
    assert((n * p.1 as int) / n == p.1 as int) by (nonlinear_arith)
        requires
            n > 0,
    ;
    assert((n * p.2 as int) / n == p.2 as int) by (nonlinear_arith)
        requires
            n > 0,
    ;
}

/// The mean of some pixels, channel by channel, is the channel's sum
/// divided by their number, rounded down.
pub proof fn law_mean_rounds_down(s: Seq<Pixel>)
    requires
        s.len() > 0,
    ensures
        mean_color(s).0 * s.len() <= channel_sum(s, 0) < (mean_color(s).0 + 1) * s.len(),
        mean_color(s).1 * s.len() <= channel_sum(s, 1) < (mean_color(s).1 + 1) * s.len(),
        mean_color(s).2 * s.len() <= channel_sum(s, 2) < (mean_color(s).2 + 1) * s.len(),
{
    let n = s.len() as int;
    lemma_sum_bound(s, 0);
    lemma_sum_bound(s, 1);
    lemma_sum_bound(s, 2);
    let a = channel_sum(s, 0);
    let b = channel_sum(s, 1);
    let c = channel_sum(s, 2);
    assert(0 <= a / n <= 255 && (a / n) * n <= a < (a / n + 1) * n) by (nonlinear_arith)
        requires
            n > 0,
            0 <= a <= 255 * n,
    ;
    assert(0 <= b / n <= 255 && (b / n) * n <= b < (b / n + 1) * n) by (nonlinear_arith)
        requires
            n > 0,
            0 <= b <= 255 * n,
    ;
    assert(0 <= c / n <= 255 && (c / n) * n <= c < (c / n + 1) * n) by (nonlinear_arith)
        requires
            n > 0,
            0 <= c <= 255 * n,
    ;
}

/// With no opaque pixel to sample, the mean is mid grey.
pub proof fn law_mean_of_none_is_grey()
    ensures
        mean_color(Seq::<Pixel>::empty()) == Rgb(128, 128, 128),
{
}

/// A channel sum lies between 0 and 255 per pixel.
proof fn lemma_sum_bound(s: Seq<Pixel>, ch: int)
    ensures
        0 <= channel_sum(s, ch) <= 255 * s.len(),
    decreases s.len(),
{
    if s.len() > 0 {
        lemma_sum_bound(s.drop_last(), ch);
    }
}

/// The opaque samples of a row whose pixels are all the opaque `p`: `p`
/// for each column.
proof fn lemma_row_of_one_colour(img: &Image, x0: int, x1: int, y: int, p: Pixel)
    requires
        x0 <= x1,
        p.3 > 128,
        forall|x: int| x0 <= x < x1 ==> #[trigger] img.at(x, y) == p,
    ensures
        row_samples(img, x0, x1, y).len() == x1 - x0,
        forall|i: int| 0 <= i < row_samples(img, x0, x1, y).len() ==> #[trigger] row_samples(img, x0, x1, y)[i] == p,
    decreases x1 - x0,
{
    if x1 > x0 {
        lemma_row_of_one_colour(img, x0, x1 - 1, y, p);
        assert(img.at(x1 - 1, y) == p);
        let r = row_samples(img, x0, x1 - 1, y);
        assert forall|i: int| 0 <= i < r.push(p).len() implies #[trigger] r.push(p)[i] == p by {
            if i < r.len() {
                assert(r.push(p)[i] == r[i]);
            }
        }
    }
}

/// The opaque samples of a window whose pixels are all the opaque `p`:
/// one `p` per pixel.
proof fn lemma_window_of_one_colour(img: &Image, x0: int, x1: int, y0: int, y1: int, p: Pixel)
    requires
        x0 <= x1,
        y0 <= y1,
        p.3 > 128,
        forall|x: int, y: int| x0 <= x < x1 && y0 <= y < y1 ==> #[trigger] img.at(x, y) == p,
    ensures
        window_samples(img, x0, x1, y0, y1).len() == (x1 - x0) * (y1 - y0),
        forall|i: int|
            0 <= i < window_samples(img, x0, x1, y0, y1).len() ==> #[trigger] window_samples(img, x0, x1, y0, y1)[i]
                == p,
    decreases y1 - y0,
{
    if y1 > y0 {
        lemma_window_of_one_colour(img, x0, x1, y0, y1 - 1, p);
        assert forall|x: int| x0 <= x < x1 implies #[trigger] img.at(x, y1 - 1) == p by {}
        lemma_row_of_one_colour(img, x0, x1, y1 - 1, p);
        let a = window_samples(img, x0, x1, y0, y1 - 1);
        let b = row_samples(img, x0, x1, y1 - 1);
        assert forall|i: int| 0 <= i < (a + b).len() implies #[trigger] (a + b)[i] == p by {
            if i < a.len() {
                assert((a + b)[i] == a[i]);
            } else {
                assert((a + b)[i] == b[i - a.len()]);
            }
        }
        assert((x1 - x0) * (y1 - y0) == (x1 - x0) * (y1 - 1 - y0) + (x1 - x0)) by (nonlinear_arith);
    } else {
        assert((x1 - x0) * (y1 - y0) == 0) by (nonlinear_arith)
            requires
                y1 == y0,
        ;
    }
}

/// The colour sampled around the centre of an image whose sampling window
/// is all one opaque colour is that colour (what `center_average` returns).
pub proof fn law_center_of_one_colour(img: &Image, mx: int, my: int, p: Pixel)
    requires
        p.3 > 128,
        ({
            let (x0, x1, y0, y1) = center_window(img.w(), img.h(), mx, my);
            &&& x0 < x1 && y0 < y1
            &&& forall|x: int, y: int| x0 <= x < x1 && y0 <= y < y1 ==> #[trigger] img.at(x, y) == p
        }),
    ensures
        ({
            let (x0, x1, y0, y1) = center_window(img.w(), img.h(), mx, my);
            mean_color(window_samples(img, x0, x1, y0, y1)) == Rgb(p.0, p.1, p.2)
        }),
{
    let (x0, x1, y0, y1) = center_window(img.w(), img.h(), mx, my);
    lemma_window_of_one_colour(img, x0, x1, y0, y1, p);
    assert((x1 - x0) * (y1 - y0) > 0) by (nonlinear_arith)
        requires
            x0 < x1,
            y0 < y1,
    ;
    law_mean_of_one_colour(window_samples(img, x0, x1, y0, y1), p);
}

/// The channel sums of pixels of one colour.
proof fn lemma_channel_sum_uniform(s: Seq<Pixel>, p: Pixel)
    requires
        forall|i: int| 0 <= i < s.len() ==> #[trigger] s[i] == p,
    ensures
        channel_sum(s, 0) == s.len() * p.0,
        channel_sum(s, 1) == s.len() * p.1,
        channel_sum(s, 2) == s.len() * p.2,
    decreases s.len(),
{
    if s.len() > 0 {
        let d = s.drop_last();
        assert forall|i: int| 0 <= i < d.len() implies #[trigger] d[i] == p by {
            assert(d[i] == s[i]);
        }
        lemma_channel_sum_uniform(d, p);
        assert(s.last() == s[s.len() - 1]);
        assert(s.len() * p.0 == d.len() * p.0 + p.0) by (nonlinear_arith)
            requires
                s.len() == d.len() + 1,
        ;
        assert(s.len() * p.1 == d.len() * p.1 + p.1) by (nonlinear_arith)
            requires
                s.len() == d.len() + 1,
        ;
        assert(s.len() * p.2 == d.len() * p.2 + p.2) by (nonlinear_arith)
            requires
                s.len() == d.len() + 1,
        ;
    }
}

/// The lines of a text hold no line feed.
proof fn lemma_lines_no_lf(t: Seq<char>)
    ensures
        forall|i: int| 0 <= i < split_lines(t).len() ==> !(#[trigger] split_lines(t)[i]).contains('\n'),
{
    let ps = split_by(t, '\n');
    lemma_split_by_len(t, '\n');
    lemma_split_lines_pieces(t);
    lemma_lines_shape(ps);
    lemma_pieces_no_sep(t, '\n');
    let ls = split_lines(t);
    assert forall|i: int| 0 <= i < ls.len() implies !(#[trigger] ls[i]).contains('\n') by {
        assert(!ps[i].contains('\n'));
        if ls[i] != ps[i] {
            assert(ls[i] == strip_cr(ps[i]));
            assert(ls[i] == ps[i].drop_last());
            if ls[i].contains('\n') {
                let j = choose|j: int| 0 <= j < ls[i].len() && ls[i][j] == '\n';
                assert(ps[i][j] == '\n');
            }
        }
    }
}

/// The lines the diff keeps are the lines that define a key with another
/// value than the common one, in order.
proof fn lemma_kept_is_filter(ls: Seq<Seq<char>>, base: Map<Seq<char>, Seq<char>>)
    ensures
        kept_lines(ls, base) == ls.filter(
            |l: Seq<char>| line_entry(l) matches Some(kv) && aliased_get(base, kv.0) != Some(kv.1),
        ),
    decreases ls.len(),
{
    reveal(Seq::filter);
    if ls.len() > 0 {
        lemma_kept_is_filter(ls.drop_last(), base);
    }
}

/// Lines without a line feed, filtered, still have none.
proof fn lemma_filter_no_lf(ls: Seq<Seq<char>>, pred: spec_fn(Seq<char>) -> bool)
    requires
        forall|i: int| 0 <= i < ls.len() ==> !(#[trigger] ls[i]).contains('\n'),
    ensures
        forall|i: int| 0 <= i < ls.filter(pred).len() ==> !(#[trigger] ls.filter(pred)[i]).contains('\n'),
    decreases ls.len(),
{
    reveal(Seq::filter);
    if ls.len() > 0 {
        let d = ls.drop_last();
        assert forall|i: int| 0 <= i < d.len() implies !(#[trigger] d[i]).contains('\n') by {
            assert(d[i] == ls[i]);
        }
        lemma_filter_no_lf(d, pred);
        let fd = d.filter(pred);
        let f = ls.filter(pred);
        assert(!ls[ls.len() - 1].contains('\n'));
        assert forall|i: int| 0 <= i < f.len() implies !(#[trigger] f[i]).contains('\n') by {
            if i < fd.len() {
                assert(f[i] == fd[i]);
            } else {
                assert(f[i] == ls.last());
            }
        }
    }
}

/// Saving an individual balloon's settings as what differs from the common
/// `descript.txt`: cut at its line feeds, the result holds every
/// `key,value` line of the individual text whose key (spelled either way
/// of its alias group) the common text does not set, and every one whose
/// common value is another; every piece before the final line feed defines
/// a key with another value than the common one. In all, the pieces are
/// exactly those lines of the individual text, in their order, then the
/// empty piece after the last line feed.
pub proof fn law_diff_keeps_what_differs(t: Seq<char>, d: Seq<char>)
    ensures
        ({
            let out = diff_text(t, d);
            let ps = split_by(out, '\n');
            let ls = split_lines(t);
            let base = descript_map(d);
            &&& ps == ls.filter(
                |l: Seq<char>| line_entry(l) matches Some(kv) && aliased_get(base, kv.0) != Some(kv.1),
            ).push(Seq::<char>::empty())
            &&& forall|j: int|
                0 <= j < ls.len() && (line_entry(#[trigger] ls[j]) matches Some(kv) && aliased_get(base, kv.0) is None)
                    ==> ps.contains(ls[j])
            &&& forall|j: int|
                0 <= j < ls.len() && (line_entry(#[trigger] ls[j]) matches Some(kv) && aliased_get(base, kv.0) matches Some(
                    b,
                ) && b != kv.1) ==> ps.contains(ls[j])
            &&& forall|i: int|
                0 <= i < ps.len() - 1 ==> (line_entry(#[trigger] ps[i]) matches Some(kv) && aliased_get(base, kv.0)
                    != Some(kv.1))
            &&& out.len() == 0 || out.last() == '\n'
        }),
{
    let ls = split_lines(t);
    let base = descript_map(d);
    let pred = |l: Seq<char>| line_entry(l) matches Some(kv) && aliased_get(base, kv.0) != Some(kv.1);
    let f = ls.filter(pred);
    let out = diff_text(t, d);
    lemma_kept_is_filter(ls, base);
    assert(kept_lines(ls, base) == f);
    lemma_lines_no_lf(t);
    lemma_filter_no_lf(ls, pred);
    let e = Seq::<char>::empty();
    let q = f.push(e);
    assert forall|j: int| 0 <= j < ls.len() && pred(ls[j]) implies #[trigger] f.contains(ls[j]) by {
        ls.lemma_filter_contains(pred, j);
    }
    assert forall|i: int| 0 <= i < f.len() implies pred(#[trigger] f[i]) by {
        ls.lemma_filter_pred(pred, i);
    }
    if f.len() == 0 {
        assert(out == e);
        lemma_split_by_len(out, '\n');
        reveal_with_fuel(split_by, 2);
        assert(split_by(out, '\n') =~= q);
        assert forall|j: int| 0 <= j < ls.len() && pred(#[trigger] ls[j]) implies false by {
            assert(f.contains(ls[j]));
        }
    } else {
        assert(q.drop_last() =~= f);
        assert(join(q, seq!['\n']) == join(f, seq!['\n']) + seq!['\n'] + e);
        assert(out =~= join(q, seq!['\n']));
        assert forall|i: int| 0 <= i < q.len() implies !(#[trigger] q[i]).contains('\n') by {
            if i < f.len() {
                assert(q[i] == f[i]);
            }
        }
        lemma_pieces_of_join_by(q, '\n');
        assert(split_by(out, '\n') == q);
        assert forall|j: int| 0 <= j < ls.len() && pred(#[trigger] ls[j]) implies q.contains(ls[j]) by {
            assert(f.contains(ls[j]));
            let i = choose|i: int| 0 <= i < f.len() && f[i] == ls[j];
            assert(q[i] == f[i]);
        }
        assert forall|i: int| 0 <= i < q.len() - 1 implies pred(#[trigger] q[i]) by {
            assert(q[i] == f[i]);
        }
        assert(out.last() == '\n');
    }
}

} // verus!
