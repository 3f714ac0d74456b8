use vstd::prelude::*;
use crate::quantity::{gcd, lemma_common_divisor, lemma_gcd_divides, reduced, shown_exactly, Quantity};
use crate::recipe::{
    ingredient_text, line_read, line_text, no_newline, parses_to, section_texts, sections_texts,
    Line, Recipe, Section,
};
use crate::transform::{
    all_fit, fits_at, is_divisor, divides_at, product_fits, quantity_at, quarter_divisible, scaled_line, scaled_recipe,
    scaled_section, unit_view,
};

verus! {

/// Every recipe that `parse` gives has positive denominators.
pub proof fn lemma_parsed_wf(t: Seq<char>, r: Recipe)
    requires
        parses_to(t, r),
    ensures
        r.wf(),
{
    assert forall|i: int, j: int| (#[trigger] quantity_at(r, i, j) matches Some(q) ==> q.wf()) by {
        if quantity_at(r, i, j) is Some {
            let s = r.sections@[i];
            assert(s.read(i));
            assert(line_read(s.lines@[j], s.is_ingredients()));
        }
    }
}

proof fn lemma_sections_texts_eq(a: Seq<Section>, b: Seq<Section>)
    requires
        a.len() == b.len(),
        forall|i: int| 0 <= i < a.len() ==> section_texts(#[trigger] a[i]) == section_texts(b[i]),
    ensures
        sections_texts(a) == sections_texts(b),
    decreases a.len(),
{
    if a.len() > 0 {
        lemma_sections_texts_eq(a.drop_last(), b.drop_last());
        assert(section_texts(a[a.len() - 1]) == section_texts(b[b.len() - 1]));
    }
}

/// Scaling by a factor of one (`p / p`) leaves the rendered text unchanged.
pub proof fn lemma_scale_identity(r: Recipe, b: Recipe, p: nat)
    requires
        p > 0,
        scaled_recipe(r, b, p, p, false),
    ensures
        b.text() == r.text(),
{
    assert forall|i: int| 0 <= i < r.sections@.len() implies section_texts(#[trigger] r.sections@[i])
        == section_texts(b.sections@[i]) by {
        let x = r.sections@[i];
        let y = b.sections@[i];
        assert(scaled_section(x, y, p, p, false));
        assert forall|j: int| 0 <= j < x.lines@.len() implies line_text(#[trigger] x.lines@[j]) == line_text(
            y.lines@[j],
        ) by {
            assert(scaled_line(x.lines@[j], y.lines@[j], p, p, false));
            match (x.lines@[j], y.lines@[j]) {
                (Line::Measured(m), Line::Measured(n)) => {
                    let a = m.quantity;
                    let c = n.quantity;
                    assert(c.num * a.den == a.num * c.den) by (nonlinear_arith)
                        requires
                            c.num * (a.den * p) == a.num * p * c.den,
                            p > 0,
                    ;
                    assert(c.same_value(a));
                    match (m.unit, n.unit) {
                        (Some(u), Some(v)) => {
                            assert(unit_view(m.unit) == unit_view(n.unit));
                        },
                        _ => {},
                    }
                    assert(ingredient_text(m) =~= ingredient_text(n));
                },
                _ => {},
            }
        }
        assert(x.lines@.map_values(|l: Line| line_text(l)) =~= y.lines@.map_values(|l: Line| line_text(l)));
    }
    lemma_sections_texts_eq(r.sections@, b.sections@);
}

/// Dividing by an offered divisor `n` is exact: each scaled quantity is the
/// unscaled quantity divided by `n`, and is shown without rounding. (That the
/// division succeeds is `lemma_divisor_fits`.)
pub proof fn lemma_divisor_exact(r: Recipe, b: Recipe, n: nat)
    requires
        r.wf(),
        is_divisor(r, n),
        scaled_recipe(r, b, 1, n, false),
    ensures
        forall|i: int, j: int| #[trigger] quantity_at(b, i, j) matches Some(c) ==> {
            &&& quantity_at(r, i, j) matches Some(a) && c.num * (a.den * n) == a.num * c.den
            &&& shown_exactly(c.num as nat, c.den as nat)
        },
{
    assert forall|i: int, j: int| (#[trigger] quantity_at(b, i, j) matches Some(c) ==> {
        &&& quantity_at(r, i, j) matches Some(a) && c.num * (a.den * n) == a.num * c.den
        &&& shown_exactly(c.num as nat, c.den as nat)
    }) by {
        if quantity_at(b, i, j) is Some {
            assert(b.sections@[i].lines@[j] is Measured);
            assert(scaled_section(r.sections@[i], b.sections@[i], 1, n, false));
            assert(scaled_line(r.sections@[i].lines@[j], b.sections@[i].lines@[j], 1, n, false));
            assert(r.sections@[i].lines@[j] is Measured);
            assert(quantity_at(r, i, j) is Some);
            let a = quantity_at(r, i, j)->Some_0;
            let c = quantity_at(b, i, j)->Some_0;
            assert(divides_at(r, i, j, n));
            assert(quarter_divisible(a, n));
            assert(a.wf());
            lemma_quarters(a, c, n);
        }
    }
}

proof fn lemma_quarters(a: Quantity, c: Quantity, n: nat)
    requires
        a.wf(),
        c.wf(),
        n > 0,
        c.num * (a.den * 1 * n) == a.num * 1 * c.den,
        quarter_divisible(a, n),
    ensures
        c.num * (a.den * n) == a.num * c.den,
        shown_exactly(c.num as nat, c.den as nat),
{
    let m = n * a.den;
    let k = (4 * a.num) / m;
    assert(m > 0) by (nonlinear_arith)
        requires n > 0, a.den > 0, m == n * a.den;
    vstd::arithmetic::div_mod::lemma_fundamental_div_mod((4 * a.num) as int, m as int);
    assert(4 * a.num == m * k);
    assert((c.num * 4) == k * c.den) by (nonlinear_arith)
        requires
            c.num * (a.den * 1 * n) == a.num * 1 * c.den,
            4 * a.num == m * k,
            m == n * a.den,
            m > 0,
    ;
    vstd::arithmetic::div_mod::lemma_mod_multiples_basic(k as int, c.den as int);
    assert((c.num * 4) % (c.den as int) == 0);
}

proof fn lemma_in_sections(ss: Seq<Section>, i: int, k: int)
    requires
        0 <= i < ss.len(),
        0 <= k < section_texts(ss[i]).len(),
    ensures
        sections_texts(ss).contains(section_texts(ss[i])[k]),
    decreases ss.len(),
{
    let x = section_texts(ss[i])[k];
    if i == ss.len() - 1 {
        let pre = sections_texts(ss.drop_last());
        assert(sections_texts(ss)[pre.len() + k] == x);
    } else {
        lemma_in_sections(ss.drop_last(), i, k);
        let w = choose|w: int| 0 <= w < sections_texts(ss.drop_last()).len() && sections_texts(ss.drop_last())[w] == x;
        assert(sections_texts(ss)[w] == x);
    }
}

/// A raw line of a parsed document is one of the document's lines, verbatim:
/// it is one of the newline-free lines whose newline-join is the input.
pub proof fn lemma_raw_fidelity(t: Seq<char>, r: Recipe, i: int, j: int)
    requires
        parses_to(t, r),
        0 <= i < r.sections@.len(),
        0 <= j < r.sections@[i].lines@.len(),
        r.sections@[i].lines@[j] is Raw,
    ensures
        sections_texts(r.sections@).contains(r.sections@[i].lines@[j]->Raw_0@),
        no_newline(r.sections@[i].lines@[j]->Raw_0@),
        r.text() == t,
{
    let s = r.sections@[i];
    assert(s.read(i));
    assert(line_read(s.lines@[j], s.is_ingredients()));
    let h = if s.level == 0 { 0int } else { 1int };
    assert(section_texts(s)[h + j] == line_text(s.lines@[j]));
    lemma_in_sections(r.sections@, i, h + j);
}

proof fn lemma_compose_values(q: Quantity, q1: Quantity, q2: Quantity, q3: Quantity, a1: nat, a2: nat, b1: nat, b2: nat)
    requires
        q.wf(),
        q1.wf(),
        q2.wf(),
        q3.wf(),
        a2 > 0,
        b2 > 0,
        q1.num * (q.den * a2) == q.num * a1 * q1.den,
        q2.num * (q1.den * b2) == q1.num * b1 * q2.den,
        q3.num * (q.den * (a2 * b2)) == q.num * (a1 * b1) * q3.den,
    ensures
        q2.same_value(q3),
{
    let x = q2.num * q3.den;
    let y = q3.num * q2.den;
    // Both sides times q.den * q1.den * a2 * b2 equal q.num * a1 * b1 * q1.den * q2.den * q3.den.
    assert(x * (q1.den * b2) * (q.den * a2) == q.num * a1 * q1.den * b1 * q2.den * q3.den) by (nonlinear_arith)
        requires
            x == q2.num * q3.den,
            q1.num * (q.den * a2) == q.num * a1 * q1.den,
            q2.num * (q1.den * b2) == q1.num * b1 * q2.den,
    ;
    assert(y * (q1.den * b2) * (q.den * a2) == q.num * a1 * q1.den * b1 * q2.den * q3.den) by (nonlinear_arith)
        requires
            y == q3.num * q2.den,
            q3.num * (q.den * (a2 * b2)) == q.num * (a1 * b1) * q3.den,
    ;
    let m = (q1.den * b2) * (q.den * a2);
    assert(m > 0) by (nonlinear_arith)
        requires q1.den > 0, b2 > 0, q.den > 0, a2 > 0, m == (q1.den * b2) * (q.den * a2);
    assert(x * m == y * m) by (nonlinear_arith)
        requires
            m == (q1.den * b2) * (q.den * a2),
            x * (q1.den * b2) * (q.den * a2) == y * (q1.den * b2) * (q.den * a2),
    ;
    vstd::arithmetic::mul::lemma_mul_equality_converse(m as int, x as int, y as int);
}

/// Scaling by `a1 / a2` and then by `b1 / b2` gives, line for line, the same
/// values as scaling once by `(a1 * b1) / (a2 * b2)`.
pub proof fn lemma_scale_compose(r: Recipe, r1: Recipe, r2: Recipe, r3: Recipe, a1: nat, a2: nat, b1: nat, b2: nat)
    requires
        a2 > 0,
        b2 > 0,
        r.wf(),
        scaled_recipe(r, r1, a1, a2, false),
        scaled_recipe(r1, r2, b1, b2, false),
        scaled_recipe(r, r3, a1 * b1, a2 * b2, false),
    ensures
        forall|i: int, j: int| (#[trigger] quantity_at(r2, i, j) matches Some(x) ==> (
            quantity_at(r3, i, j) matches Some(y) && x.same_value(y))),
{
    assert forall|i: int, j: int| (#[trigger] quantity_at(r2, i, j) matches Some(x) ==> (
        quantity_at(r3, i, j) matches Some(y) && x.same_value(y))) by {
        if quantity_at(r2, i, j) is Some {
            assert(scaled_section(r1.sections@[i], r2.sections@[i], b1, b2, false));
            assert(scaled_line(r1.sections@[i].lines@[j], r2.sections@[i].lines@[j], b1, b2, false));
            assert(scaled_section(r.sections@[i], r1.sections@[i], a1, a2, false));
            assert(scaled_line(r.sections@[i].lines@[j], r1.sections@[i].lines@[j], a1, a2, false));
            assert(scaled_section(r.sections@[i], r3.sections@[i], a1 * b1, a2 * b2, false));
            assert(scaled_line(r.sections@[i].lines@[j], r3.sections@[i].lines@[j], a1 * b1, a2 * b2, false));
            assert(r.sections@[i].lines@[j] is Measured);
            let q = quantity_at(r, i, j)->Some_0;
            assert(q.wf());
            lemma_compose_values(
                q,
                quantity_at(r1, i, j)->Some_0,
                quantity_at(r2, i, j)->Some_0,
                quantity_at(r3, i, j)->Some_0,
                a1,
                a2,
                b1,
                b2,
            );
        }
    }
}

/// Where `b` divides `4 * a`, some common divisor `c` of `a` and `b` leaves
/// `b / c` one of 1, 2 and 4.
proof fn lemma_quarter_divisor(a: nat, b: nat) -> (c: nat)
    requires
        b > 0,
        (4 * a) % b == 0,
    ensures
        c > 0,
        a % c == 0,
        b % c == 0,
        b == c || b == 2 * c || b == 4 * c,
{
    vstd::arithmetic::div_mod::lemma_fundamental_div_mod((4 * a) as int, b as int);
    let k = (4 * a) / b;
    assert(4 * a == b * k);
    vstd::arithmetic::div_mod::lemma_fundamental_div_mod(k as int, 4);
    let t = k / 4;
    let r = k % 4;
    assert(r * b == 4 * (a - t * b)) by (nonlinear_arith)
        requires 4 * a == b * k, k == 4 * t + r;
    let w = a - t * b;
    let c: int;
    let u: int;
    if r == 0 {
        c = b as int;
        u = t as int;
        assert(a == u * c) by (nonlinear_arith)
            requires 0 * b == 4 * w, w == a - t * b, u == t, c == b;
    } else if r == 1 {
        c = w;
        u = (4 * t + 1) as int;
        assert(a == u * c) by (nonlinear_arith)
            requires 1 * b == 4 * w, w == a - t * b, u == 4 * t + 1, c == w;
    } else if r == 2 {
        c = w;
        u = (2 * t + 1) as int;
        assert(a == u * c) by (nonlinear_arith)
            requires 2 * b == 4 * w, w == a - t * b, u == 2 * t + 1, c == w;
    } else {
        c = b - w;
        u = (4 * t + 3) as int;
        assert(a == u * c) by (nonlinear_arith)
            requires 3 * b == 4 * w, w == a - t * b, u == 4 * t + 3, c == b - w;
    }
    assert(c > 0);
    assert(b == c || b == 2 * c || b == 4 * c);
    assert(u >= 0) by (nonlinear_arith)
        requires a == u * c, c > 0, a >= 0;
    vstd::arithmetic::div_mod::lemma_mod_multiples_basic(u, c);
    vstd::arithmetic::div_mod::lemma_mod_self_0(c);
    vstd::arithmetic::div_mod::lemma_mod_multiples_basic(2, c);
    vstd::arithmetic::div_mod::lemma_mod_multiples_basic(4, c);
    assert(a % (c as nat) == 0);
    c as nat
}

/// Dividing by an offered divisor always succeeds: every quantity divided by
/// `n` has, in lowest terms, a denominator of at most 4.
pub proof fn lemma_divisor_fits(r: Recipe, n: nat)
    requires
        r.wf(),
        is_divisor(r, n),
    ensures
        all_fit(r, 1, n),
{
    assert forall|i: int, j: int| #[trigger] fits_at(r, i, j, 1, n) by {
        if quantity_at(r, i, j) is Some {
            let q = quantity_at(r, i, j)->Some_0;
            assert(q.wf());
            assert(divides_at(r, i, j, n));
            let a = (q.num * 1) as nat;
            let b = (q.den * n) as nat;
            assert(b > 0) by (nonlinear_arith)
                requires b == q.den * n, q.den > 0, n >= 2;
            assert(n * q.den == q.den * n) by (nonlinear_arith);
            let c = lemma_quarter_divisor(a, b);
            lemma_gcd_divides(a, b);
            lemma_common_divisor(a, b, c);
            let g = gcd(a, b);
            vstd::arithmetic::div_mod::lemma_fundamental_div_mod(g as int, c as int);
            vstd::arithmetic::div_mod::lemma_fundamental_div_mod(a as int, g as int);
            vstd::arithmetic::div_mod::lemma_fundamental_div_mod(b as int, g as int);
            let j2 = g / c;
            let bg = b / g;
            let ag = a / g;
            assert(bg <= 4) by (nonlinear_arith)
                requires
                    g == c * j2,
                    b == g * bg,
                    b == c || b == 2 * c || b == 4 * c,
                    c > 0,
                    g > 0,
                    bg >= 0,
            ;
            assert(ag <= a) by (nonlinear_arith)
                requires a == g * ag, g > 0, ag >= 0;
            assert(reduced(a, b) == (ag, bg));
            assert(product_fits(q, 1, n));
        }
    }
}

} // verus!
