use vstd::prelude::*;
use crate::quantity::{lemma_amount_space, amount_of, amount_prefix, quantity_of, Quantity, char_at};
use crate::laws::lemma_parsed_wf;
use crate::text::{chars_eq, chars_of, push_all, slice_of, string_of};

verus! {

/// An ingredient line with a measured amount:
/// `marker amount [unit] name`, single spaces between.
#[derive(Clone, Debug)]
pub struct Ingredient {
    /// `-` or `*`.
    pub marker: char,
    /// The amount as the text shows it.
    pub amount: Vec<char>,
    pub quantity: Quantity,
    /// A recognised unit word, when one follows the amount.
    pub unit: Option<Vec<char>>,
    /// The ingredient's name and any description after it.
    pub name: Vec<char>,
}

/// One content line of a section.
#[derive(Clone, Debug)]
pub enum Line {
    /// A line outside an ingredients section, kept verbatim.
    Text(Vec<char>),
    /// A line of an ingredients section without a measured amount, kept verbatim.
    Raw(Vec<char>),
    /// An ingredient line with a measured amount.
    Measured(Ingredient),
}

/// A heading and the lines under it. Level 0 holds the lines before the first
/// heading, and has no heading line.
#[derive(Clone, Debug)]
pub struct Section {
    pub level: usize,
    pub heading: Vec<char>,
    pub lines: Vec<Line>,
}

/// A parsed recipe document: its sections in source order.
#[derive(Clone, Debug)]
pub struct Recipe {
    pub sections: Vec<Section>,
}

// ---------------------------------------------------------------------------
// Text of the parts.

pub open spec fn no_newline(t: Seq<char>) -> bool {
    forall|k: int| 0 <= k < t.len() ==> t[k] != '\n'
}

/// `level` hash signs.
pub open spec fn hashes(level: nat) -> Seq<char> {
    Seq::new(level, |i: int| '#')
}

/// Length of the run of `#` that starts at `i`.
pub open spec fn hash_run(t: Seq<char>, i: int) -> nat
    decreases t.len() - i,
{
    if 0 <= i < t.len() && t[i] == '#' {
        1 + hash_run(t, i + 1)
    } else {
        0
    }
}

/// A heading line: one or more `#`, then a space.
pub open spec fn is_heading_line(t: Seq<char>) -> bool {
    hash_run(t, 0) >= 1 && char_at(t, hash_run(t, 0) as int, ' ')
}

pub open spec fn heading_line(level: nat, heading: Seq<char>) -> Seq<char> {
    hashes(level) + seq![' '] + heading
}

pub open spec fn ingredient_text(m: Ingredient) -> Seq<char> {
    seq![m.marker, ' '] + m.amount@ + seq![' '] + match m.unit {
        Some(u) => u@ + seq![' '],
        None => seq![],
    } + m.name@
}

pub open spec fn line_text(l: Line) -> Seq<char> {
    match l {
        Line::Text(t) => t@,
        Line::Raw(t) => t@,
        Line::Measured(m) => ingredient_text(m),
    }
}

/// The lines that a section stands for: its heading line, then its content.
pub open spec fn section_texts(s: Section) -> Seq<Seq<char>> {
    (if s.level == 0 {
        Seq::<Seq<char>>::empty()
    } else {
        seq![heading_line(s.level as nat, s.heading@)]
    }) + s.lines@.map_values(|l: Line| line_text(l))
}

pub open spec fn sections_texts(ss: Seq<Section>) -> Seq<Seq<char>>
    decreases ss.len(),
{
    if ss.len() == 0 {
        Seq::empty()
    } else {
        sections_texts(ss.drop_last()) + section_texts(ss.last())
    }
}

/// Lines joined by newlines.
pub open spec fn join(ls: Seq<Seq<char>>) -> Seq<char>
    decreases ls.len(),
{
    if ls.len() == 0 {
        Seq::empty()
    } else if ls.len() == 1 {
        ls[0]
    } else {
        join(ls.drop_last()) + seq!['\n'] + ls.last()
    }
}

impl Recipe {
    /// The document text that this recipe stands for.
    pub open spec fn text(&self) -> Seq<char> {
        join(sections_texts(self.sections@))
    }
}

// ---------------------------------------------------------------------------
// The grammar of a line.

/// Base forms of the recognised unit words; a trailing `s` is also accepted.
pub open spec fn unit_base(w: Seq<char>) -> bool {
    w == seq!['c', 'u', 'p'] || w == seq!['t', 's', 'p'] || w == seq!['t', 'b', 's', 'p']
        || w == seq!['t', 'e', 'a', 's', 'p', 'o', 'o', 'n'] || w == seq![
        't',
        'a',
        'b',
        'l',
        'e',
        's',
        'p',
        'o',
        'o',
        'n',
    ] || w == seq!['g'] || w == seq!['g', 'r', 'a', 'm'] || w == seq!['k', 'g'] || w == seq![
        'm',
        'g',
    ] || w == seq!['o', 'z'] || w == seq!['o', 'u', 'n', 'c', 'e'] || w == seq!['l', 'b']
        || w == seq!['p', 'o', 'u', 'n', 'd'] || w == seq!['m', 'l'] || w == seq!['l'] || w
        == seq!['l', 'i', 't', 'e', 'r'] || w == seq!['p', 'i', 'n', 't'] || w == seq![
        'q',
        'u',
        'a',
        'r',
        't',
    ] || w == seq!['p', 'i', 'n', 'c', 'h'] || w == seq!['c', 'l', 'o', 'v', 'e'] || w == seq![
        'c',
        'a',
        'n',
    ]
}

/// A recognised unit word, singular or plural.
pub open spec fn is_unit(w: Seq<char>) -> bool {
    unit_base(w) || (w.len() > 1 && w.last() == 's' && unit_base(w.drop_last()))
}

/// Index of the first space at or after `i`, or `t.len()` if there is none.
pub open spec fn space_from(t: Seq<char>, i: int) -> int
    decreases t.len() - i,
{
    if i < 0 || i >= t.len() {
        t.len() as int
    } else if t[i] == ' ' {
        i
    } else {
        space_from(t, i + 1)
    }
}

/// Where the text after an amount starts with a unit word and a space: the
/// unit word's length.
pub open spec fn unit_split(rest: Seq<char>) -> Option<nat> {
    let j = space_from(rest, 0);
    if j < rest.len() && is_unit(rest.subrange(0, j)) {
        Some(j as nat)
    } else {
        None
    }
}

pub open spec fn is_marker(c: char) -> bool {
    c == '-' || c == '*'
}

/// A bullet line whose content starts with an amount and a space.
pub open spec fn measured_form(t: Seq<char>) -> bool {
    t.len() >= 2 && is_marker(t[0]) && t[1] == ' ' && amount_of(t.subrange(2, t.len() as int)) is Some
}

/// The fields of `m` are what its text reads as.
pub open spec fn ingredient_read(m: Ingredient) -> bool {
    let t = ingredient_text(m);
    let tail = t.subrange(2, t.len() as int);
    let rest = tail.subrange(m.amount@.len() as int + 1, tail.len() as int);
    &&& is_marker(m.marker)
    &&& m.quantity.wf()
    &&& amount_of(tail) matches Some((n, d, h, e)) && e == m.amount@.len() && quantity_of(
        m.quantity,
        n,
        d,
        h,
    )
    &&& match m.unit {
        Some(u) => unit_split(rest) == Some(u@.len()),
        None => unit_split(rest) is None,
    }
}

/// `l` is what its text reads as, inside an ingredients section or not.
pub open spec fn line_read(l: Line, ingredients: bool) -> bool {
    let t = line_text(l);
    &&& no_newline(t)
    &&& !is_heading_line(t)
    &&& match l {
        Line::Text(_) => !ingredients,
        Line::Raw(_) => ingredients && !measured_form(t),
        Line::Measured(m) => ingredients && ingredient_read(m),
    }
}

/// `ingredient`, in lower and in upper case.
pub open spec fn word_lower() -> Seq<char> {
    seq!['i', 'n', 'g', 'r', 'e', 'd', 'i', 'e', 'n', 't']
}

pub open spec fn word_upper() -> Seq<char> {
    seq!['I', 'N', 'G', 'R', 'E', 'D', 'I', 'E', 'N', 'T']
}

/// The word `ingredient`, in any ASCII case, starts at `i`.
pub open spec fn word_at(h: Seq<char>, i: int) -> bool {
    0 <= i && i + 10 <= h.len() && forall|k: int|
        0 <= k < 10 ==> h[i + k] == word_lower()[k] || h[i + k] == word_upper()[k]
}

/// A heading that contains `ingredient`, in any ASCII case.
pub open spec fn names_ingredients(h: Seq<char>) -> bool {
    exists|i: int| word_at(h, i)
}

impl Section {
    /// An ingredients section: its lines are read for amounts.
    pub open spec fn is_ingredients(&self) -> bool {
        self.level > 0 && names_ingredients(self.heading@)
    }

    /// What parsing makes of the section at `index`: a level-0 section comes first and is
    /// not empty, the heading is one line, and each line is what its text reads as.
    pub open spec fn read(&self, index: int) -> bool {
        &&& self.level == 0 ==> index == 0 && self.heading@.len() == 0 && self.lines@.len() > 0
        &&& no_newline(self.heading@)
        &&& forall|j: int|
            0 <= j < self.lines@.len() ==> #[trigger] line_read(self.lines@[j], self.is_ingredients())
    }
}

/// `r` is what `parse` makes of `t`: its text is `t`, and each part is what its
/// text reads as.
pub open spec fn parses_to(t: Seq<char>, r: Recipe) -> bool {
    &&& r.text() == t
    &&& forall|i: int| 0 <= i < r.sections@.len() ==> #[trigger] r.sections@[i].read(i)
}

// ---------------------------------------------------------------------------
// Reading lines.

proof fn lemma_hash_prefix(t: Seq<char>, i: int, k: int)
    requires
        0 <= i <= k <= i + hash_run(t, i),
    ensures
        hash_run(t, i) == (k - i) + hash_run(t, k),
        k < i + hash_run(t, i) ==> 0 <= k < t.len() && t[k] == '#',
    decreases k - i,
{
    if k > i {
        lemma_hash_prefix(t, i + 1, k);
    }
}

/// The level of a heading line, or `None` for any other line.
fn heading_level(t: &[char]) -> (r: Option<usize>)
    ensures
        r is Some <==> is_heading_line(t@),
        r matches Some(l) ==> l == hash_run(t@, 0) && t@ == heading_line(
            l as nat,
            t@.subrange(l + 1, t@.len() as int),
        ),
{
    let mut j: usize = 0;
    while j < t.len() && t[j] == '#'
        invariant
            j <= t@.len(),
            hash_run(t@, 0) == j + hash_run(t@, j as int),
        decreases t@.len() - j,
    {
        j = j + 1;
    }
    if j >= 1 && j < t.len() && t[j] == ' ' {
        proof {
            assert forall|k: int| 0 <= k < j implies t@[k] == '#' by {
                lemma_hash_prefix(t@, 0, k);
            }
            assert(t@ =~= heading_line(j as nat, t@.subrange(j + 1, t@.len() as int)));
        }
        Some(j)
    } else {
        None
    }
}

proof fn lemma_space_from(t: Seq<char>, i: int, k: int)
    requires
        0 <= i <= k <= t.len(),
        forall|m: int| i <= m < k ==> t[m] != ' ',
    ensures
        space_from(t, i) == space_from(t, k),
    decreases k - i,
{
    if i < k {
        lemma_space_from(t, i + 1, k);
    }
}

fn is_unit_base(w: &[char]) -> (r: bool)
    ensures
        r == unit_base(w@),
{
    let w0: &[char] = &['c', 'u', 'p'];
    assert(w0@ =~= seq!['c', 'u', 'p']);
    let w1: &[char] = &['t', 's', 'p'];
    assert(w1@ =~= seq!['t', 's', 'p']);
    let w2: &[char] = &['t', 'b', 's', 'p'];
    assert(w2@ =~= seq!['t', 'b', 's', 'p']);
    let w3: &[char] = &['t', 'e', 'a', 's', 'p', 'o', 'o', 'n'];
    assert(w3@ =~= seq!['t', 'e', 'a', 's', 'p', 'o', 'o', 'n']);
    let w4: &[char] = &['t', 'a', 'b', 'l', 'e', 's', 'p', 'o', 'o', 'n'];
    assert(w4@ =~= seq!['t', 'a', 'b', 'l', 'e', 's', 'p', 'o', 'o', 'n']);
    let w5: &[char] = &['g'];
    assert(w5@ =~= seq!['g']);
    let w6: &[char] = &['g', 'r', 'a', 'm'];
    assert(w6@ =~= seq!['g', 'r', 'a', 'm']);
    let w7: &[char] = &['k', 'g'];
    assert(w7@ =~= seq!['k', 'g']);
    let w8: &[char] = &['m', 'g'];
    assert(w8@ =~= seq!['m', 'g']);
    let w9: &[char] = &['o', 'z'];
    assert(w9@ =~= seq!['o', 'z']);
    let w10: &[char] = &['o', 'u', 'n', 'c', 'e'];
    assert(w10@ =~= seq!['o', 'u', 'n', 'c', 'e']);
    let w11: &[char] = &['l', 'b'];
    assert(w11@ =~= seq!['l', 'b']);
    let w12: &[char] = &['p', 'o', 'u', 'n', 'd'];
    assert(w12@ =~= seq!['p', 'o', 'u', 'n', 'd']);
    let w13: &[char] = &['m', 'l'];
    assert(w13@ =~= seq!['m', 'l']);
    let w14: &[char] = &['l'];
    assert(w14@ =~= seq!['l']);
    let w15: &[char] = &['l', 'i', 't', 'e', 'r'];
    assert(w15@ =~= seq!['l', 'i', 't', 'e', 'r']);
    let w16: &[char] = &['p', 'i', 'n', 't'];
    assert(w16@ =~= seq!['p', 'i', 'n', 't']);
    let w17: &[char] = &['q', 'u', 'a', 'r', 't'];
    assert(w17@ =~= seq!['q', 'u', 'a', 'r', 't']);
    let w18: &[char] = &['p', 'i', 'n', 'c', 'h'];
    assert(w18@ =~= seq!['p', 'i', 'n', 'c', 'h']);
    let w19: &[char] = &['c', 'l', 'o', 'v', 'e'];
    assert(w19@ =~= seq!['c', 'l', 'o', 'v', 'e']);
    let w20: &[char] = &['c', 'a', 'n'];
    assert(w20@ =~= seq!['c', 'a', 'n']);
    chars_eq(w, w0) || chars_eq(w, w1) || chars_eq(w, w2) || chars_eq(w, w3) || chars_eq(w, w4) || chars_eq(w, w5) || chars_eq(w, w6) || chars_eq(w, w7) || chars_eq(w, w8) || chars_eq(w, w9) || chars_eq(w, w10) || chars_eq(w, w11) || chars_eq(w, w12) || chars_eq(w, w13) || chars_eq(w, w14) || chars_eq(w, w15) || chars_eq(w, w16) || chars_eq(w, w17) || chars_eq(w, w18) || chars_eq(w, w19) || chars_eq(w, w20)
}

/// Whether `w` is a recognised unit word.
pub fn unit_word(w: &[char]) -> (r: bool)
    ensures
        r == is_unit(w@),
{
    if is_unit_base(w) {
        return true;
    }
    let n = w.len();
    if n > 1 && w[n - 1] == 's' {
        let base = slice_of(w, 0, n - 1);
        assert(base@ =~= w@.drop_last());
        is_unit_base(base.as_slice())
    } else {
        false
    }
}

/// The unit word that `rest` starts with, as `unit_split` gives it.
fn split_unit(rest: &[char]) -> (r: Option<usize>)
    ensures
        r is None <==> unit_split(rest@) is None,
        r matches Some(j) ==> unit_split(rest@) == Some(j as nat),
        r matches Some(j) ==> j < rest@.len() && rest@[j as int] == ' ',
{
    let mut j: usize = 0;
    while j < rest.len() && rest[j] != ' '
        invariant
            j <= rest@.len(),
            forall|m: int| 0 <= m < j ==> rest@[m] != ' ',
        decreases rest@.len() - j,
    {
        j = j + 1;
    }
    proof {
        lemma_space_from(rest@, 0, j as int);
    }
    if j < rest.len() {
        let w = slice_of(rest, 0, j);
        if unit_word(w.as_slice()) {
            return Some(j);
        }
    }
    None
}

/// Reads one line that is not a heading.
pub fn read_line(t: Vec<char>, ingredients: bool) -> (r: Line)
    requires
        no_newline(t@),
        !is_heading_line(t@),
    ensures
        line_text(r) == t@,
        line_read(r, ingredients),
{
    if !ingredients {
        return Line::Text(t);
    }
    let n = t.len();
    if n >= 2 && (t[0] == '-' || t[0] == '*') && t[1] == ' ' {
        let ghost tail = t@.subrange(2, n as int);
        if let Some((q, e)) = amount_prefix(t.as_slice(), 2) {
            proof {
                lemma_amount_space(tail);
            }
            let amount = slice_of(t.as_slice(), 2, 2 + e);
            let rest = slice_of(t.as_slice(), 2 + e + 1, n);
            assert(rest@ =~= tail.subrange(e + 1, tail.len() as int));
            let ghost rest_v = rest@;
            let marker = t[0];
            let m = match split_unit(rest.as_slice()) {
                Some(j) => {
                    let u = slice_of(rest.as_slice(), 0, j);
                    let nm = slice_of(rest.as_slice(), j + 1, rest.len());
                    assert(rest@ =~= u@ + seq![' '] + nm@);
                    Ingredient { marker, amount, quantity: q, unit: Some(u), name: nm }
                },
                None => Ingredient { marker, amount, quantity: q, unit: None, name: rest },
            };
            proof {
                let it = ingredient_text(m);
                assert(it =~= t@);
                assert(it.subrange(2, it.len() as int) =~= tail);
                assert(tail.subrange(m.amount@.len() as int + 1, tail.len() as int) =~= rest_v);
                assert(is_marker(m.marker));
                assert(amount_of(tail) matches Some((n, d, h, e)) && e == m.amount@.len() && quantity_of(m.quantity, n, d, h));
                assert(match m.unit {
                    Some(u) => unit_split(rest_v) == Some(u@.len()),
                    None => unit_split(rest_v) is None,
                });
                assert(ingredient_read(m));
            }
            return Line::Measured(m);
        }
    }
    Line::Raw(t)
}

/// Whether `h` contains `ingredient`, in any ASCII case.
pub fn mentions_ingredients(h: &[char]) -> (r: bool)
    ensures
        r == names_ingredients(h@),
{
    let lower = ['i', 'n', 'g', 'r', 'e', 'd', 'i', 'e', 'n', 't'];
    let upper = ['I', 'N', 'G', 'R', 'E', 'D', 'I', 'E', 'N', 'T'];
    assert(lower@ =~= word_lower());
    assert(upper@ =~= word_upper());
    let n = h.len();
    let mut i: usize = 0;
    while i <= n && n - i >= 10
        invariant
            n == h@.len(),
            lower@ == word_lower(),
            upper@ == word_upper(),
            forall|p: int| 0 <= p < i ==> !word_at(h@, p),
        decreases n - i,
    {
        let mut k: usize = 0;
        let mut ok = true;
        while k < 10
            invariant
                i + 10 <= n,
                n == h@.len(),
                lower@ == word_lower(),
                upper@ == word_upper(),
                k <= 10,
                ok == forall|m: int| 0 <= m < k ==> h@[i + m] == word_lower()[m] || h@[i + m] == word_upper()[m],
            decreases 10 - k,
        {
            ok = ok && (h[i + k] == lower[k] || h[i + k] == upper[k]);
            k = k + 1;
        }
        if ok {
            assert(word_at(h@, i as int));
            return true;
        }
        i = i + 1;
    }
    proof {
        assert forall|p: int| !word_at(h@, p) by {
            if 0 <= p < i {
            }
        }
    }
    false
}

// ---------------------------------------------------------------------------
// Parsing.

proof fn lemma_join_push(ls: Seq<Seq<char>>, x: Seq<char>)
    ensures
        join(ls.push(x)) == if ls.len() == 0 {
            x
        } else {
            join(ls) + seq!['\n'] + x
        },
{
    assert(ls.push(x).drop_last() =~= ls);
}

proof fn lemma_sections_push(ss: Seq<Section>, s: Section)
    ensures
        sections_texts(ss.push(s)) == sections_texts(ss) + section_texts(s),
{
    assert(ss.push(s).drop_last() =~= ss);
}

proof fn lemma_section_push(s: Section, t: Section, l: Line)
    requires
        t.level == s.level,
        t.heading@ == s.heading@,
        t.lines@ == s.lines@.push(l),
    ensures
        section_texts(t) == section_texts(s).push(line_text(l)),
{
    assert(t.lines@.map_values(|l: Line| line_text(l)) =~= s.lines@.map_values(|l: Line| line_text(l)).push(line_text(l)));
    assert(section_texts(t) =~= section_texts(s).push(line_text(l)));
}

/// End of the line that starts at `start`: the next newline, or the end.
fn line_end(s: &[char], start: usize) -> (r: usize)
    requires
        start <= s@.len(),
    ensures
        start <= r <= s@.len(),
        forall|k: int| start <= k < r ==> s@[k] != '\n',
        r < s@.len() ==> s@[r as int] == '\n',
{
    let mut j: usize = start;
    while j < s.len() && s[j] != '\n'
        invariant
            start <= j <= s@.len(),
            forall|k: int| start <= k < j ==> s@[k] != '\n',
        decreases s@.len() - j,
    {
        j = j + 1;
    }
    j
}

/// Parses a recipe document. Every input is accepted: each line becomes a
/// heading, a verbatim text line, a verbatim raw line or a measured ingredient.
/// An amount whose digit runs are longer than `MAX_DIGITS` (nine) is not read
/// as one, so that every value fits in 64 bits: its line stays raw.
pub fn parse(text: &str) -> (r: Recipe)
    ensures
        parses_to(text@, r),
        r.wf(),
{
    let chars = chars_of(text);
    let n = chars.len();
    let mut done: Vec<Section> = Vec::new();
    let mut cur = Section { level: 0, heading: Vec::new(), lines: Vec::new() };
    let mut start: usize = 0;
    let mut finished = false;
    let ghost mut ts: Seq<Seq<char>> = Seq::empty();
    assert(sections_texts(done@) + section_texts(cur) =~= ts);
    while !finished
        invariant
            n == chars@.len(),
            chars@ == text@,
            start <= n,
            ts == sections_texts(done@) + section_texts(cur),
            cur.level == 0 ==> done@.len() == 0 && cur.heading@.len() == 0,
            no_newline(cur.heading@),
            forall|j: int|
                0 <= j < cur.lines@.len() ==> #[trigger] line_read(
                    cur.lines@[j],
                    cur.is_ingredients(),
                ),
            forall|i: int| 0 <= i < done@.len() ==> #[trigger] done@[i].read(i),
            finished ==> ts.len() > 0 && join(ts) == chars@,
            !finished ==> (ts.len() == 0 ==> start == 0),
            !finished ==> (ts.len() > 0 ==> join(ts) + seq!['\n'] == chars@.subrange(0, start as int)),
        decreases n - start + if finished { 0int } else { 1int },
    {
        let end = line_end(chars.as_slice(), start);
        let line = slice_of(chars.as_slice(), start, end);
        let ghost lv = line@;
        assert(no_newline(lv));
        proof {
            lemma_join_push(ts, lv);
            if ts.len() > 0 {
                assert(chars@.subrange(0, end as int) =~= chars@.subrange(0, start as int) + lv);
            } else {
                assert(chars@.subrange(0, end as int) =~= lv);
            }
        }
        match heading_level(line.as_slice()) {
            Some(level) => {
                let heading = slice_of(line.as_slice(), level + 1, line.len());
                assert(no_newline(heading@));
                if !(cur.level == 0 && cur.lines.len() == 0) {
                    proof {
                        lemma_sections_push(done@, cur);
                    }
                    let old_cur = cur;
                    cur = Section { level: 0, heading: Vec::new(), lines: Vec::new() };
                    done.push(old_cur);
                } else {
                    assert(section_texts(cur) =~= Seq::<Seq<char>>::empty());
                    assert(sections_texts(done@) =~= Seq::<Seq<char>>::empty());
                }
                cur = Section { level, heading, lines: Vec::new() };
                proof {
                    assert(section_texts(cur) =~= seq![lv]);
                    ts = ts.push(lv);
                }
            },
            None => {
                let ingredients = cur.level > 0 && mentions_ingredients(cur.heading.as_slice());
                let l = read_line(line, ingredients);
                let ghost before = cur;
                cur.lines.push(l);
                proof {
                    lemma_section_push(before, cur, l);
                    ts = ts.push(lv);
                    assert(cur.is_ingredients() == ingredients);
                    assert forall|j: int| 0 <= j < cur.lines@.len() implies #[trigger] line_read(
                        cur.lines@[j],
                        cur.is_ingredients(),
                    ) by {
                        assert(before.is_ingredients() == cur.is_ingredients());
                        if j < before.lines@.len() {
                            assert(cur.lines@[j] == before.lines@[j]);
                            assert(line_read(before.lines@[j], before.is_ingredients()));
                        } else {
                            assert(cur.lines@[j] == l);
                        }
                    }
                }
            },
        }
        assert(ts == sections_texts(done@) + section_texts(cur));
        if end == n {
            assert(chars@.subrange(0, n as int) =~= chars@);
            finished = true;
        } else {
            assert(chars@.subrange(0, end as int + 1) =~= chars@.subrange(0, end as int) + seq!['\n']);
            start = end + 1;
        }
    }
    proof {
        lemma_sections_push(done@, cur);
    }
    done.push(cur);
    let r = Recipe { sections: done };
    proof {
        lemma_parsed_wf(text@, r);
    }
    r
}

// ---------------------------------------------------------------------------
// Rendering.

/// Appends a line to text that holds the lines `acc` joined.
fn push_line(out: &mut Vec<char>, Ghost(acc): Ghost<Seq<Seq<char>>>, started: bool, t: &[char])
    requires
        old(out)@ == join(acc),
        started == (acc.len() > 0),
    ensures
        final(out)@ == join(acc.push(t@)),
{
    proof {
        lemma_join_push(acc, t@);
    }
    if started {
        out.push('\n');
    }
    push_all(out, t);
}

/// The text of a line.
pub fn line_chars(l: &Line) -> (r: Vec<char>)
    ensures
        r@ == line_text(*l),
{
    match l {
        Line::Text(t) => slice_of(t.as_slice(), 0, t.len()),
        Line::Raw(t) => slice_of(t.as_slice(), 0, t.len()),
        Line::Measured(m) => {
            let mut out: Vec<char> = Vec::new();
            out.push(m.marker);
            out.push(' ');
            push_all(&mut out, m.amount.as_slice());
            out.push(' ');
            match &m.unit {
                Some(u) => {
                    push_all(&mut out, u.as_slice());
                    out.push(' ');
                },
                None => {},
            }
            push_all(&mut out, m.name.as_slice());
            assert(out@ =~= ingredient_text(*m));
            out
        },
    }
}

/// The heading line of a section of level `level > 0`.
fn heading_chars(level: usize, heading: &[char]) -> (r: Vec<char>)
    ensures
        r@ == heading_line(level as nat, heading@),
{
    let mut out: Vec<char> = Vec::new();
    let mut k: usize = 0;
    while k < level
        invariant
            k <= level,
            out@ == hashes(k as nat),
        decreases level - k,
    {
        out.push('#');
        k = k + 1;
        assert(out@ =~= hashes(k as nat));
    }
    out.push(' ');
    push_all(&mut out, heading);
    assert(out@ =~= heading_line(level as nat, heading@));
    out
}

fn push_section(out: &mut Vec<char>, Ghost(acc): Ghost<Seq<Seq<char>>>, started: bool, s: &Section)
    requires
        old(out)@ == join(acc),
        started == (acc.len() > 0),
    ensures
        final(out)@ == join(acc + section_texts(*s)),
{
    let ghost mut cur = acc;
    let mut started = started;
    if s.level > 0 {
        let h = heading_chars(s.level, s.heading.as_slice());
        push_line(out, Ghost(cur), started, h.as_slice());
        proof {
            cur = cur.push(h@);
        }
        started = true;
    }
    let ghost head = cur;
    let mut j: usize = 0;
    assert(head + s.lines@.subrange(0, 0).map_values(|l: Line| line_text(l)) =~= head);
    while j < s.lines.len()
        invariant
            j <= s.lines@.len(),
            started == ((head + s.lines@.subrange(0, j as int).map_values(|l: Line| line_text(l))).len() > 0),
            head == acc + (if s.level == 0 {
                Seq::<Seq<char>>::empty()
            } else {
                seq![heading_line(s.level as nat, s.heading@)]
            }),
            out@ == join(head + s.lines@.subrange(0, j as int).map_values(|l: Line| line_text(l))),
        decreases s.lines@.len() - j,
    {
        let t = line_chars(&s.lines[j]);
        let ghost before = head + s.lines@.subrange(0, j as int).map_values(|l: Line| line_text(l));
        push_line(out, Ghost(before), started, t.as_slice());
        started = true;
        assert(before.push(t@) =~= head + s.lines@.subrange(0, j + 1).map_values(|l: Line| line_text(l)));
        j = j + 1;
    }
    assert(s.lines@.subrange(0, j as int) =~= s.lines@);
    assert(head + s.lines@.map_values(|l: Line| line_text(l)) =~= acc + section_texts(*s));
}

impl Recipe {
    /// Renders the recipe in its markdown dialect: the text that it stands for.
    pub fn markdown(&self) -> (r: String)
        ensures
            r@ == self.text(),
    {
        let mut out: Vec<char> = Vec::new();
        let mut i: usize = 0;
        let mut started = false;
        assert(sections_texts(self.sections@.subrange(0, 0)) =~= Seq::<Seq<char>>::empty());
        while i < self.sections.len()
            invariant
                i <= self.sections@.len(),
                started == (sections_texts(self.sections@.subrange(0, i as int)).len() > 0),
                out@ == join(sections_texts(self.sections@.subrange(0, i as int))),
            decreases self.sections@.len() - i,
        {
            let ghost acc = sections_texts(self.sections@.subrange(0, i as int));
            push_section(&mut out, Ghost(acc), started, &self.sections[i]);
            started = started || self.sections[i].level > 0 || self.sections[i].lines.len() > 0;
            proof {
                assert(self.sections@.subrange(0, i + 1) =~= self.sections@.subrange(0, i as int).push(
                    self.sections@[i as int],
                ));
                lemma_sections_push(self.sections@.subrange(0, i as int), self.sections@[i as int]);
            }
            i = i + 1;
        }
        assert(self.sections@.subrange(0, i as int) =~= self.sections@);
        string_of(out)
    }
}

impl Recipe {
    /// The heading of the first level-1 section, if there is one.
    pub fn title(&self) -> (r: Option<Vec<char>>)
        ensures
            r is None <==> forall|i: int| 0 <= i < self.sections@.len() ==> #[trigger] self.sections@[i].level != 1,
            r matches Some(h) ==> exists|i: int|
                0 <= i < self.sections@.len() && #[trigger] self.sections@[i].level == 1 && h@ == self.sections@[i].heading@
                    && forall|k: int| 0 <= k < i ==> self.sections@[k].level != 1,
    {
        let mut i: usize = 0;
        while i < self.sections.len()
            invariant
                i <= self.sections@.len(),
                forall|k: int| 0 <= k < i ==> #[trigger] self.sections@[k].level != 1,
            decreases self.sections@.len() - i,
        {
            if self.sections[i].level == 1 {
                let h = &self.sections[i].heading;
                return Some(slice_of(h.as_slice(), 0, h.len()));
            }
            i = i + 1;
        }
        None
    }
}

/// Parsing a document and rendering the result gives back the document, byte
/// for byte.
pub proof fn lemma_round_trip(t: Seq<char>, r: Recipe)
    requires
        parses_to(t, r),
    ensures
        r.text() == t,
{
}

} // verus!
