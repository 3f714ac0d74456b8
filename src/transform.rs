use vstd::prelude::*;
use crate::quantity::{amount_chars, amount_text, nearest_to, reduced, Quantity, ScaleError};
use crate::laws::lemma_divisor_fits;
use crate::recipe::{parse, parses_to, Ingredient, Line, Recipe, Section};
use crate::text::slice_of;

verus! {

/// The quantity at line `j` of section `i`, where a measured line stands.
pub open spec fn quantity_at(r: Recipe, i: int, j: int) -> Option<Quantity> {
    if 0 <= i < r.sections@.len() && 0 <= j < r.sections@[i].lines@.len() {
        match r.sections@[i].lines@[j] {
            Line::Measured(m) => Some(m.quantity),
            _ => None,
        }
    } else {
        None
    }
}

impl Recipe {
    /// Every measured quantity has a positive denominator.
    pub open spec fn wf(&self) -> bool {
        forall|i: int, j: int| #[trigger] quantity_at(*self, i, j) matches Some(q) ==> q.wf()
    }
}

/// `q * p / d` fits in 64 bits once in lowest terms.
pub open spec fn product_fits(q: Quantity, p: nat, d: nat) -> bool {
    let (n, e) = reduced((q.num * p) as nat, (q.den * d) as nat);
    n <= u64::MAX && e <= u64::MAX
}

/// `q * p / d` in lowest terms, with the hint of `q`.
pub open spec fn product(q: Quantity, p: nat, d: nat) -> Quantity {
    let (n, e) = reduced((q.num * p) as nat, (q.den * d) as nat);
    Quantity { num: n as u64, den: e as u64, hint: q.hint }
}

/// The quantity at `(i, j)`, if any, can be scaled by `p / d`.
pub open spec fn fits_at(r: Recipe, i: int, j: int, p: nat, d: nat) -> bool {
    quantity_at(r, i, j) matches Some(q) ==> product_fits(q, p, d)
}

pub open spec fn all_fit(r: Recipe, p: nat, d: nat) -> bool {
    forall|i: int, j: int| #[trigger] fits_at(r, i, j, p, d)
}

pub open spec fn unit_view(u: Option<Vec<char>>) -> Option<Seq<char>> {
    match u {
        Some(v) => Some(v@),
        None => None,
    }
}

/// `b` is `a` scaled by `p / d`: the same words, the product as quantity, and
/// the amount's text kept at a factor of one, else written anew by `amount_text`.
pub open spec fn scaled_ingredient(a: Ingredient, b: Ingredient, p: nat, d: nat) -> bool {
    &&& b.marker == a.marker
    &&& unit_view(b.unit) == unit_view(a.unit)
    &&& b.name@ == a.name@
    &&& b.quantity == product(a.quantity, p, d)
    &&& b.quantity.wf()
    &&& b.quantity.num * (a.quantity.den * d) == a.quantity.num * p * b.quantity.den
    &&& if p == d {
        b.amount@ == a.amount@
    } else {
        b.amount@ == amount_text(b.quantity.num as nat, b.quantity.den as nat, b.quantity.hint)
    }
}

/// `b` is `a` scaled by `p / d` and then moved to the nearest fraction with a
/// denominator of at most 16: the same words, and the amount's text kept at a
/// factor of one where rounding left the value unchanged, else written anew.
pub open spec fn rounded_ingredient(a: Ingredient, b: Ingredient, p: nat, d: nat) -> bool {
    let c = product(a.quantity, p, d);
    &&& b.marker == a.marker
    &&& unit_view(b.unit) == unit_view(a.unit)
    &&& b.name@ == a.name@
    &&& nearest_to(b.quantity, c.num as nat, c.den as nat)
    &&& b.quantity.hint == a.quantity.hint
    &&& b.quantity.wf()
    &&& if p == d && b.quantity.same_value(a.quantity) {
        b.amount@ == a.amount@
    } else {
        b.amount@ == amount_text(b.quantity.num as nat, b.quantity.den as nat, b.quantity.hint)
    }
}

/// `b` is line `a` scaled by `p / d`, exactly, or rounded where `approx`.
pub open spec fn scaled_line(a: Line, b: Line, p: nat, d: nat, approx: bool) -> bool {
    match (a, b) {
        (Line::Text(x), Line::Text(y)) => x@ == y@,
        (Line::Raw(x), Line::Raw(y)) => x@ == y@,
        (Line::Measured(x), Line::Measured(y)) => if approx {
            rounded_ingredient(x, y, p, d)
        } else {
            scaled_ingredient(x, y, p, d)
        },
        _ => false,
    }
}

pub open spec fn scaled_section(a: Section, b: Section, p: nat, d: nat, approx: bool) -> bool {
    &&& b.level == a.level
    &&& b.heading@ == a.heading@
    &&& b.lines@.len() == a.lines@.len()
    &&& forall|j: int| 0 <= j < a.lines@.len() ==> #[trigger] scaled_line(a.lines@[j], b.lines@[j], p, d, approx)
}

/// `b` is `a` with every measured quantity scaled by `p / d` (and rounded,
/// where `approx`), and all else kept.
pub open spec fn scaled_recipe(a: Recipe, b: Recipe, p: nat, d: nat, approx: bool) -> bool {
    &&& b.sections@.len() == a.sections@.len()
    &&& forall|i: int| 0 <= i < a.sections@.len() ==> #[trigger] scaled_section(a.sections@[i], b.sections@[i], p, d, approx)
}

/// `a * b`, exactly.
fn mul_wide(a: u64, b: u64) -> (r: u128)
    ensures
        r == a * b,
{
    assert((a as u128) * (b as u128) <= 0xffff_ffff_ffff_ffffu128 * 0xffff_ffff_ffff_ffffu128) by (nonlinear_arith)
        requires a <= 0xffff_ffff_ffff_ffffu64, b <= 0xffff_ffff_ffff_ffffu64;
    (a as u128) * (b as u128)
}

fn copy_chars(v: &Vec<char>) -> (r: Vec<char>)
    ensures
        r@ == v@,
{
    slice_of(v.as_slice(), 0, v.len())
}

fn scale_ingredient(m: &Ingredient, p: u64, d: u64, approx: bool) -> (r: Result<Ingredient, ScaleError>)
    requires
        m.quantity.wf(),
        p > 0,
        d > 0,
    ensures
        r is Ok <==> product_fits(m.quantity, p as nat, d as nat),
        r matches Ok(b) ==> scaled_line(Line::Measured(*m), Line::Measured(b), p as nat, d as nat, approx),
        r matches Err(e) ==> e == ScaleError::TooLarge,
{
    let exact = match m.quantity.multiply(p, d) {
        Ok(q) => q,
        Err(e) => {
            return Err(e);
        },
    };
    let q = if approx {
        exact.nearest()
    } else {
        exact
    };
    let keep = p == d && (!approx || mul_wide(q.num, m.quantity.den) == mul_wide(m.quantity.num, q.den));
    let amount = if keep {
        copy_chars(&m.amount)
    } else {
        amount_chars(q.num, q.den, q.hint)
    };
    let unit = match &m.unit {
        Some(u) => Some(copy_chars(u)),
        None => None,
    };
    Ok(Ingredient { marker: m.marker, amount, quantity: q, unit, name: copy_chars(&m.name) })
}

fn scale_line(l: &Line, p: u64, d: u64, approx: bool) -> (r: Result<Line, ScaleError>)
    requires
        l matches Line::Measured(m) ==> m.quantity.wf(),
        p > 0,
        d > 0,
    ensures
        r is Ok <==> (l matches Line::Measured(m) ==> product_fits(m.quantity, p as nat, d as nat)),
        r matches Ok(b) ==> scaled_line(*l, b, p as nat, d as nat, approx),
        r matches Err(e) ==> e == ScaleError::TooLarge,
{
    match l {
        Line::Text(t) => Ok(Line::Text(copy_chars(t))),
        Line::Raw(t) => Ok(Line::Raw(copy_chars(t))),
        Line::Measured(m) => match scale_ingredient(m, p, d, approx) {
            Ok(b) => Ok(Line::Measured(b)),
            Err(e) => Err(e),
        },
    }
}

fn scale_section(s: &Section, Ghost(r): Ghost<Recipe>, Ghost(i): Ghost<int>, p: u64, d: u64, approx: bool) -> (res: Result<Section, ScaleError>)
    requires
        r.wf(),
        0 <= i < r.sections@.len(),
        r.sections@[i] == *s,
        p > 0,
        d > 0,
    ensures
        res is Ok <==> (forall|j: int| #[trigger] fits_at(r, i, j, p as nat, d as nat)),
        res matches Ok(b) ==> scaled_section(*s, b, p as nat, d as nat, approx),
        res matches Err(e) ==> e == ScaleError::TooLarge,
{
    let mut lines: Vec<Line> = Vec::new();
    let mut j: usize = 0;
    while j < s.lines.len()
        invariant
            r.wf(),
            0 <= i < r.sections@.len(),
            r.sections@[i] == *s,
            p > 0,
            d > 0,
            j <= s.lines@.len(),
            lines@.len() == j,
            forall|k: int| 0 <= k < j ==> #[trigger] scaled_line(s.lines@[k], lines@[k], p as nat, d as nat, approx),
            forall|k: int| 0 <= k < j ==> #[trigger] fits_at(r, i, k, p as nat, d as nat),
        decreases s.lines@.len() - j,
    {
        assert(quantity_at(r, i, j as int) matches Some(q) ==> q.wf());
        match scale_line(&s.lines[j], p, d, approx) {
            Ok(b) => {
                lines.push(b);
            },
            Err(e) => {
                assert(!fits_at(r, i, j as int, p as nat, d as nat));
                return Err(e);
            },
        }
        j = j + 1;
    }
    proof {
        assert forall|k: int| #[trigger] fits_at(r, i, k, p as nat, d as nat) by {
            if 0 <= k < j {
            }
        }
    }
    Ok(Section { level: s.level, heading: copy_chars(&s.heading), lines })
}

impl Recipe {
    /// Scales every measured quantity by `p / d`, exactly; all other text is
    /// kept. Refused where `p` or `d` is zero, or where a scaled quantity, in
    /// lowest terms, does not fit in 64 bits.
    pub fn scale(&self, p: u64, d: u64) -> (r: Result<Recipe, ScaleError>)
        requires
            self.wf(),
        ensures
            p == 0 || d == 0 ==> r == Err::<Recipe, ScaleError>(ScaleError::NotPositive),
            p > 0 && d > 0 ==> (r is Ok <==> all_fit(*self, p as nat, d as nat)),
            p > 0 && d > 0 && !all_fit(*self, p as nat, d as nat) ==> r == Err::<Recipe, ScaleError>(ScaleError::TooLarge),
            r matches Ok(b) ==> scaled_recipe(*self, b, p as nat, d as nat, false),
    {
        self.scale_with(p, d, false)
    }

    /// Scales as `scale` does, then moves each scaled quantity to the nearest
    /// fraction with a denominator of at most 16: for factors that a user
    /// entered, where exact fractions would grow without bound.
    pub fn scale_approx(&self, p: u64, d: u64) -> (r: Result<Recipe, ScaleError>)
        requires
            self.wf(),
        ensures
            p == 0 || d == 0 ==> r == Err::<Recipe, ScaleError>(ScaleError::NotPositive),
            p > 0 && d > 0 ==> (r is Ok <==> all_fit(*self, p as nat, d as nat)),
            p > 0 && d > 0 && !all_fit(*self, p as nat, d as nat) ==> r == Err::<Recipe, ScaleError>(ScaleError::TooLarge),
            r matches Ok(b) ==> scaled_recipe(*self, b, p as nat, d as nat, true),
    {
        self.scale_with(p, d, true)
    }

    fn scale_with(&self, p: u64, d: u64, approx: bool) -> (r: Result<Recipe, ScaleError>)
        requires
            self.wf(),
        ensures
            p == 0 || d == 0 ==> r == Err::<Recipe, ScaleError>(ScaleError::NotPositive),
            p > 0 && d > 0 ==> (r is Ok <==> all_fit(*self, p as nat, d as nat)),
            p > 0 && d > 0 && !all_fit(*self, p as nat, d as nat) ==> r == Err::<Recipe, ScaleError>(ScaleError::TooLarge),
            r matches Ok(b) ==> scaled_recipe(*self, b, p as nat, d as nat, approx),
    {
        if p == 0 || d == 0 {
            return Err(ScaleError::NotPositive);
        }
        let mut sections: Vec<Section> = Vec::new();
        let mut i: usize = 0;
        while i < self.sections.len()
            invariant
                self.wf(),
                p > 0,
                d > 0,
                i <= self.sections@.len(),
                sections@.len() == i,
                forall|k: int| 0 <= k < i ==> #[trigger] scaled_section(self.sections@[k], sections@[k], p as nat, d as nat, approx),
                forall|k: int, j: int| 0 <= k < i ==> #[trigger] fits_at(*self, k, j, p as nat, d as nat),
            decreases self.sections@.len() - i,
        {
            match scale_section(&self.sections[i], Ghost(*self), Ghost(i as int), p, d, approx) {
                Ok(b) => {
                    sections.push(b);
                },
                Err(e) => {
                    return Err(e);
                },
            }
            i = i + 1;
        }
        proof {
            assert forall|k: int, j: int| #[trigger] fits_at(*self, k, j, p as nat, d as nat) by {
                if 0 <= k < i {
                }
            }
        }
        Ok(Recipe { sections })
    }
}

/// Smallest and largest divisor offered.
pub const MIN_DIVISOR: u64 = 2;
pub const MAX_DIVISOR: u64 = 12;

/// `q / n` is a whole number of quarters.
pub open spec fn quarter_divisible(q: Quantity, n: nat) -> bool {
    (4 * q.num) % (n * q.den) == 0
}

pub open spec fn divides_at(r: Recipe, i: int, j: int, n: nat) -> bool {
    quantity_at(r, i, j) matches Some(q) ==> quarter_divisible(q, n)
}

pub open spec fn has_measured(r: Recipe) -> bool {
    exists|i: int, j: int| #[trigger] quantity_at(r, i, j) is Some
}

/// `n` is offered as a divisor of `r`: it lies in the candidate range, `r` has
/// a measured line, and dividing by `n` leaves every quantity a whole number
/// of quarters.
pub open spec fn is_divisor(r: Recipe, n: nat) -> bool {
    &&& MIN_DIVISOR <= n <= MAX_DIVISOR
    &&& has_measured(r)
    &&& forall|i: int, j: int| #[trigger] divides_at(r, i, j, n)
}

fn find_measured(r: &Recipe) -> (b: bool)
    ensures
        b == has_measured(*r),
{
    let mut i: usize = 0;
    while i < r.sections.len()
        invariant
            i <= r.sections@.len(),
            forall|k: int, j: int| 0 <= k < i ==> !(#[trigger] quantity_at(*r, k, j) is Some),
        decreases r.sections@.len() - i,
    {
        let s = &r.sections[i];
        let mut j: usize = 0;
        while j < s.lines.len()
            invariant
                i < r.sections@.len(),
                *s == r.sections@[i as int],
                j <= s.lines@.len(),
                forall|k: int, j: int| 0 <= k < i ==> !(#[trigger] quantity_at(*r, k, j) is Some),
                forall|m: int| 0 <= m < j ==> !(#[trigger] quantity_at(*r, i as int, m) is Some),
            decreases s.lines@.len() - j,
        {
            if let Line::Measured(_) = &s.lines[j] {
                assert(quantity_at(*r, i as int, j as int) is Some);
                return true;
            }
            j = j + 1;
        }
        proof {
            assert forall|k: int, m: int| 0 <= k < i + 1 implies !(#[trigger] quantity_at(*r, k, m) is Some) by {
                if k == i && 0 <= m < j {
                }
            }
        }
        i = i + 1;
    }
    false
}

fn divides_all(r: &Recipe, n: u64) -> (b: bool)
    requires
        r.wf(),
        n > 0,
    ensures
        b == forall|i: int, j: int| #[trigger] divides_at(*r, i, j, n as nat),
{
    let mut i: usize = 0;
    while i < r.sections.len()
        invariant
            r.wf(),
            n > 0,
            i <= r.sections@.len(),
            forall|k: int, j: int| 0 <= k < i ==> #[trigger] divides_at(*r, k, j, n as nat),
        decreases r.sections@.len() - i,
    {
        let s = &r.sections[i];
        let mut j: usize = 0;
        while j < s.lines.len()
            invariant
                r.wf(),
                n > 0,
                i < r.sections@.len(),
                *s == r.sections@[i as int],
                j <= s.lines@.len(),
                forall|k: int, j: int| 0 <= k < i ==> #[trigger] divides_at(*r, k, j, n as nat),
                forall|m: int| 0 <= m < j ==> #[trigger] divides_at(*r, i as int, m, n as nat),
            decreases s.lines@.len() - j,
        {
            if let Line::Measured(m) = &s.lines[j] {
                assert(quantity_at(*r, i as int, j as int) == Some(m.quantity));
                let q = m.quantity;
                assert(q.wf());
                assert((n as u128) * (q.den as u128) > 0) by (nonlinear_arith)
                    requires n > 0, q.den > 0;
                assert((n as u128) * (q.den as u128) <= 0xffff_ffff_ffff_ffffu128 * 0xffff_ffff_ffff_ffffu128) by (nonlinear_arith)
                    requires n <= 0xffff_ffff_ffff_ffffu64, q.den <= 0xffff_ffff_ffff_ffffu64;
                if (4 * (q.num as u128)) % ((n as u128) * (q.den as u128)) != 0 {
                    assert(!divides_at(*r, i as int, j as int, n as nat));
                    return false;
                }
            }
            assert(divides_at(*r, i as int, j as int, n as nat));
            j = j + 1;
        }
        proof {
            assert forall|k: int, m: int| 0 <= k < i + 1 implies #[trigger] divides_at(*r, k, m, n as nat) by {
                if k == i && !(0 <= m < j) {
                    assert(quantity_at(*r, k, m) is None);
                }
            }
        }
        i = i + 1;
    }
    proof {
        assert forall|k: int, m: int| #[trigger] divides_at(*r, k, m, n as nat) by {
            if !(0 <= k < i) {
                assert(quantity_at(*r, k, m) is None);
            }
        }
    }
    true
}

impl Recipe {
    /// The divisors to offer for this recipe, ascending: each `n` in
    /// `MIN_DIVISOR..=MAX_DIVISOR` by which every measured quantity divides into
    /// a whole number of quarters. Empty when nothing is measured. Dividing by
    /// each of them succeeds.
    pub fn divisors(&self) -> (r: Vec<u64>)
        requires
            self.wf(),
        ensures
            forall|k: int| 0 <= k < r@.len() ==> is_divisor(*self, #[trigger] r@[k] as nat),
            forall|n: nat| is_divisor(*self, n) ==> r@.contains(n as u64),
            forall|a: int, b: int| 0 <= a < b < r@.len() ==> r@[a] < r@[b],
            forall|k: int| 0 <= k < r@.len() ==> all_fit(*self, 1, #[trigger] r@[k] as nat),
    {
        let out = self.divisor_list();
        proof {
            assert forall|k: int| 0 <= k < out@.len() implies all_fit(*self, 1, #[trigger] out@[k] as nat) by {
                lemma_divisor_fits(*self, out@[k] as nat);
            }
        }
        out
    }

    fn divisor_list(&self) -> (r: Vec<u64>)
        requires
            self.wf(),
        ensures
            forall|k: int| 0 <= k < r@.len() ==> is_divisor(*self, #[trigger] r@[k] as nat),
            forall|n: nat| is_divisor(*self, n) ==> r@.contains(n as u64),
            forall|a: int, b: int| 0 <= a < b < r@.len() ==> r@[a] < r@[b],
    {
        let mut out: Vec<u64> = Vec::new();
        if !find_measured(self) {
            return out;
        }
        let mut n: u64 = MIN_DIVISOR;
        while n <= MAX_DIVISOR
            invariant
                self.wf(),
                has_measured(*self),
                MIN_DIVISOR <= n <= MAX_DIVISOR + 1,
                forall|k: int| 0 <= k < out@.len() ==> is_divisor(*self, #[trigger] out@[k] as nat) && out@[k] < n,
                forall|m: nat| m < n && is_divisor(*self, m) ==> out@.contains(m as u64),
                forall|a: int, b: int| 0 <= a < b < out@.len() ==> out@[a] < out@[b],
            decreases MAX_DIVISOR + 1 - n,
        {
            if divides_all(self, n) {
                let ghost before = out@;
                out.push(n);
                proof {
                    assert forall|m: nat| m < n + 1 && is_divisor(*self, m) implies out@.contains(m as u64) by {
                        if m < n {
                            let w = choose|w: int| 0 <= w < before.len() && before[w] == m as u64;
                            assert(out@[w] == m as u64);
                        } else {
                            assert(out@[before.len() as int] == n);
                        }
                    }
                }
            }
            n = n + 1;
        }
        out
    }
}

/// Parses a recipe document into an owned recipe, ready to scale or render.
pub fn recipe(text: String) -> (r: Recipe)
    ensures
        parses_to(text@, r),
        r.wf(),
{
    parse(text.as_str())
}

/// The text that `markdown::to_html` makes of a markdown document.
pub uninterp spec fn html_of(s: Seq<char>) -> Seq<char>;

/// Relies on `markdown::to_html`: CommonMark to HTML with default options,
/// which never fails and depends on the input alone.
#[verifier::external_body]
fn markdown_to_html(s: &str) -> (r: String)
    ensures
        r@ == html_of(s@),
{
    markdown::to_html(s)
}

impl Recipe {
    /// The recipe's rendered markdown, converted to HTML.
    pub fn html(&self) -> (r: String)
        ensures
            r@ == html_of(self.text()),
    {
        let md = self.markdown();
        markdown_to_html(md.as_str())
    }
}

} // verus!
