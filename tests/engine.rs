use recipe_engine::api::{image_type, new_recipe_content, ImageKind, Recipe as Record};
use recipe_engine::assets::{index, wasm, wasm_js};
use recipe_engine::{parse, parse_amount, recipe, Hint, Line, Quantity, Recipe, ScaleError};

const SOUP: &str = "# Soup\n\n## Ingredients\n\n- 1 cup broth\n- 1/2 tsp salt\n\n## Directions\n\n- Boil it";

fn s(v: &[char]) -> String {
    v.iter().collect()
}

fn measured(r: &Recipe) -> Vec<(u64, u64, String, String, String)> {
    let mut out = Vec::new();
    for sec in &r.sections {
        for l in &sec.lines {
            if let Line::Measured(m) = l {
                let unit = m.unit.as_ref().map(|u| s(u)).unwrap_or_default();
                out.push((m.quantity.num, m.quantity.den, s(&m.amount), unit, s(&m.name)));
            }
        }
    }
    out
}

#[test]
fn soup_parses_into_sections() {
    let r = parse(SOUP);
    assert_eq!(r.sections.len(), 3);
    assert_eq!(r.sections[0].level, 1);
    assert_eq!(s(&r.sections[0].heading), "Soup");
    assert_eq!(r.sections[1].level, 2);
    assert_eq!(s(&r.sections[1].heading), "Ingredients");
    let m = measured(&r);
    assert_eq!(m.len(), 2);
    assert_eq!(m[0], (1, 1, "1".to_string(), "cup".to_string(), "broth".to_string()));
    assert_eq!(m[1], (1, 2, "1/2".to_string(), "tsp".to_string(), "salt".to_string()));
    let dirs = &r.sections[2];
    assert_eq!(s(&dirs.heading), "Directions");
    let texts: Vec<String> = dirs
        .lines
        .iter()
        .map(|l| match l {
            Line::Text(t) => s(t),
            _ => panic!("direction lines are plain text"),
        })
        .collect();
    assert_eq!(texts, vec!["".to_string(), "- Boil it".to_string()]);
}

#[test]
fn soup_divisors() {
    assert_eq!(parse(SOUP).divisors(), vec![2]);
}

#[test]
fn soup_doubled() {
    let r = parse(SOUP).scale(2, 1).unwrap();
    let text = r.markdown();
    assert!(text.contains("- 2 cup broth\n"));
    assert!(text.contains("- 1 tsp salt\n"));
    assert_eq!(
        text,
        "# Soup\n\n## Ingredients\n\n- 2 cup broth\n- 1 tsp salt\n\n## Directions\n\n- Boil it"
    );
}

#[test]
fn soup_halved_is_exact() {
    let r = parse(SOUP).scale(1, 2).unwrap();
    let m = measured(&r);
    assert_eq!((m[0].0, m[0].1), (1, 2));
    assert_eq!((m[1].0, m[1].1), (1, 4));
    assert!(r.markdown().contains("- 1/2 cup broth\n- 1/4 tsp salt"));
}

#[test]
fn pinch_line_is_raw() {
    let doc = "## Ingredients\n- a pinch of salt";
    let r = parse(doc);
    match &r.sections[0].lines[0] {
        Line::Raw(t) => assert_eq!(s(t), "- a pinch of salt"),
        _ => panic!("expected a raw line"),
    }
    assert_eq!(r.markdown(), doc);
}

#[test]
fn round_trip_keeps_text() {
    for doc in [
        SOUP,
        "",
        "\n",
        "intro line\n# Title\n## Ingredients\n- 1 1/2 cups flour\n* 2.50 g sugar\n-  3 eggs\n\n",
        "#NoSpace\n## INGREDIENTS list\n- 2/4 tsp salt\n- 1.5\n- 12345678901 g x",
    ] {
        assert_eq!(parse(doc).markdown(), doc);
    }
}

#[test]
fn scale_by_one_keeps_text() {
    let doc = "# T\n## Ingredients\n- 2.50 g sugar\n- 2/4 tsp salt\n- 1 1/2 cups flour";
    let r = parse(doc);
    assert_eq!(r.scale(1, 1).unwrap().markdown(), r.markdown());
    assert_eq!(r.scale(3, 3).unwrap().markdown(), doc);
}

#[test]
fn scale_refuses_zero() {
    let r = parse(SOUP);
    assert!(matches!(r.scale(0, 1), Err(ScaleError::NotPositive)));
    assert!(matches!(r.scale(1, 0), Err(ScaleError::NotPositive)));
}

#[test]
fn multiply_too_large() {
    let q = Quantity { num: u64::MAX, den: 1, hint: Hint::Whole };
    assert_eq!(q.multiply(2, 1), Err(ScaleError::TooLarge));
    assert_eq!(q.multiply(2, 2), Ok(q));
    let r = parse("## Ingredients\n- 999999999 g flour");
    assert!(matches!(r.scale(u64::MAX, 1), Err(ScaleError::TooLarge)));
}

#[test]
fn no_measured_lines_no_divisors() {
    assert_eq!(parse("# Water\n\nJust water.").divisors(), Vec::<u64>::new());
    assert_eq!(parse("## Ingredients\n- some water").divisors(), Vec::<u64>::new());
}

#[test]
fn divisors_within_range_ascending() {
    let r = parse("## Ingredients\n- 12 eggs\n- 24 g salt");
    assert_eq!(r.divisors(), vec![2, 3, 4, 6, 8, 12]);
    let r = parse("## Ingredients\n- 0 g nothing");
    assert_eq!(r.divisors(), (2..=12).collect::<Vec<u64>>());
}

#[test]
fn amount_forms() {
    assert_eq!(parse_amount("1 1/2"), Some(Quantity { num: 3, den: 2, hint: Hint::Mixed }));
    assert_eq!(parse_amount("1/2"), Some(Quantity { num: 1, den: 2, hint: Hint::Fraction }));
    assert_eq!(parse_amount("2/4"), Some(Quantity { num: 1, den: 2, hint: Hint::Fraction }));
    assert_eq!(parse_amount("1.25"), Some(Quantity { num: 5, den: 4, hint: Hint::Decimal }));
    assert_eq!(parse_amount("3"), Some(Quantity { num: 3, den: 1, hint: Hint::Whole }));
    assert_eq!(parse_amount("abc"), None);
    assert_eq!(parse_amount("1/0"), None);
    assert_eq!(parse_amount("1.5 cups"), None);
    assert_eq!(parse_amount("1234567890"), None);
    assert_eq!(parse_amount(""), None);
}

#[test]
fn amount_text_forms() {
    let q = |num, den, hint| Quantity { num, den, hint };
    assert_eq!(q(3, 2, Hint::Mixed).to_text(Hint::Mixed), "1 1/2");
    assert_eq!(q(3, 2, Hint::Mixed).to_text(Hint::Fraction), "3/2");
    assert_eq!(q(5, 4, Hint::Decimal).to_text(Hint::Decimal), "1.25");
    assert_eq!(q(3, 2, Hint::Decimal).to_text(Hint::Decimal), "1.5");
    assert_eq!(q(1, 3, Hint::Whole).to_text(Hint::Whole), "1/3");
    assert_eq!(q(1, 8, Hint::Decimal).to_text(Hint::Decimal), "1/8");
    assert_eq!(q(1, 5, Hint::Whole).to_text(Hint::Whole), "0.2");
    assert_eq!(q(2, 7, Hint::Whole).to_text(Hint::Whole), "0.29");
    assert_eq!(q(1, 200, Hint::Whole).to_text(Hint::Whole), "0.01");
    assert_eq!(q(6, 2, Hint::Fraction).to_text(Hint::Fraction), "3");
    assert_eq!(q(0, 1, Hint::Whole).to_text(Hint::Whole), "0");
}

#[test]
fn scale_rewrites_changed_amounts() {
    let r = parse("## Ingredients\n- 1 1/2 cups flour\n- 0.5 l milk\n- 1 clove garlic");
    let text = r.scale(3, 2).unwrap().markdown();
    assert_eq!(text, "## Ingredients\n- 2 1/4 cups flour\n- 0.75 l milk\n- 1 1/2 clove garlic");
}

#[test]
fn units_and_headings() {
    let r = parse("## My INGREDIENTS\n- 2 cups flour\n- 2 large eggs");
    let m = measured(&r);
    assert_eq!(m[0].3, "cups");
    assert_eq!(m[0].4, "flour");
    assert_eq!(m[1].3, "");
    assert_eq!(m[1].4, "large eggs");
    let r = parse("## Method\n- 2 cups flour");
    assert!(matches!(r.sections[0].lines[0], Line::Text(_)));
}

#[test]
fn owned_recipe_and_html() {
    let r = recipe(SOUP.to_string());
    assert_eq!(r.markdown(), SOUP);
    let html = parse("# Soup").html();
    assert!(html.contains("<h1>Soup</h1>"));
    assert_ne!(html, "# Soup");
}

#[test]
fn image_types() {
    assert_eq!(image_type("cake.png"), Some(ImageKind::Png));
    assert_eq!(image_type("a.b.jpg"), Some(ImageKind::Jpeg));
    assert_eq!(image_type("x.jpeg"), Some(ImageKind::Jpeg));
    assert_eq!(image_type("x.svg"), Some(ImageKind::Svg));
    assert_eq!(image_type("x.gif"), None);
    assert_eq!(image_type("png"), None);
    assert_eq!(ImageKind::Svg.subtype(), "svg+xml");
    assert_eq!(ImageKind::Jpeg.subtype(), "jpeg");
}

#[test]
fn new_recipe_template() {
    let c = new_recipe_content("Pie");
    assert_eq!(
        c,
        "# Pie\n\n## Ingredients\n\n- 1 cup ingredient\n\n## Directions\n\n- An instruction"
    );
    assert_eq!(parse(&c).divisors(), vec![2, 4]);
}

#[test]
fn record_from_row() {
    let rec = Record::from_row("soup".to_string(), SOUP.to_string(), None);
    assert_eq!(rec.factors, vec![2]);
    assert_eq!(rec.image, "");
    assert_eq!(rec.content, SOUP);
    let rec = Record::from_row("soup".to_string(), SOUP.to_string(), Some("a.png".to_string()));
    assert_eq!(rec.image, "a.png");
    assert_eq!(rec.slug, "soup");
}

#[test]
fn static_assets() {
    assert_eq!(index().file, "index.html");
    assert_eq!(index().media_type, "text/html; charset=utf-8");
    assert_eq!(wasm_js().file, "pkg/wasm.js");
    assert_eq!(wasm().media_type, "application/wasm");
}

#[test]
fn nearest_fractions() {
    let q = |num, den| Quantity { num, den, hint: Hint::Whole };
    assert_eq!(q(1, 3).nearest(), q(1, 3));
    assert_eq!(q(333, 1000).nearest(), q(1, 3));
    assert_eq!(q(7, 20).nearest(), q(5, 14));
    assert_eq!(q(1, 1000).nearest(), q(0, 1));
    assert_eq!(q(2501, 100).nearest(), q(25, 1));
}

#[test]
fn approximate_scaling() {
    let r = parse(SOUP);
    let text = r.scale_approx(333, 1000).unwrap().markdown();
    assert!(text.contains("- 1/3 cup broth\n- 0.17 tsp salt"));
    let exact = r.scale(333, 1000).unwrap().markdown();
    assert!(exact.contains("- 0.33 cup broth\n- 0.17 tsp salt"));
    assert_eq!(r.scale_approx(1, 1).unwrap().markdown(), SOUP);
    assert!(matches!(r.scale_approx(0, 1), Err(ScaleError::NotPositive)));
}

#[test]
fn title_of_recipe() {
    assert_eq!(parse(SOUP).title().map(|t| s(&t)), Some("Soup".to_string()));
    assert_eq!(parse("## Ingredients\n- 1 egg").title(), None);
}

#[test]
fn scaling_twice_matches_once() {
    let r = parse(SOUP);
    let twice = r.scale(2, 3).unwrap().scale(3, 4).unwrap();
    let once = r.scale(6, 12).unwrap();
    assert_eq!(measured(&twice)[0].0 * measured(&once)[0].1, measured(&once)[0].0 * measured(&twice)[0].1);
    assert_eq!(twice.markdown(), once.markdown());
    assert!(once.markdown().contains("- 1/2 cup broth\n- 1/4 tsp salt"));
}

#[test]
fn scaled_zero_is_rewritten() {
    let r = parse("## Ingredients\n- 0.0 g salt\n- 2.0 cups rice");
    assert_eq!(r.scale(2, 1).unwrap().markdown(), "## Ingredients\n- 0 g salt\n- 4 cups rice");
    assert_eq!(r.scale(1, 1).unwrap().markdown(), "## Ingredients\n- 0.0 g salt\n- 2.0 cups rice");
    assert_eq!(r.scale(5, 5).unwrap().markdown(), "## Ingredients\n- 0.0 g salt\n- 2.0 cups rice");
}

#[test]
fn rounding_at_factor_one_rewrites_moved_amounts() {
    let r = parse("## Ingredients\n- 0.333 cup milk\n- 0.5 cup water");
    assert_eq!(
        r.scale_approx(1, 1).unwrap().markdown(),
        "## Ingredients\n- 1/3 cup milk\n- 0.5 cup water"
    );
}

#[test]
fn nearest_is_in_lowest_terms_with_smallest_denominator() {
    let q = |num, den| Quantity { num, den, hint: Hint::Whole };
    assert_eq!(q(4, 8).nearest(), q(1, 2));
    assert_eq!(q(6, 4).nearest(), q(3, 2));
    assert_eq!(q(10, 5).nearest(), q(2, 1));
    // 1/32 lies as near to 0/1 as to 1/16: the smaller denominator wins.
    assert_eq!(q(1, 32).nearest(), q(0, 1));
}

#[test]
fn offered_divisors_always_scale() {
    let r = parse("## Ingredients\n- 3 cups flour\n- 3/4 tsp salt\n- 6 eggs");
    let ds = r.divisors();
    assert_eq!(ds, vec![3]);
    for n in ds {
        let scaled = r.scale(1, n).unwrap();
        assert_eq!(scaled.markdown(), "## Ingredients\n- 1 cups flour\n- 1/4 tsp salt\n- 2 eggs");
    }
    let big = Quantity { num: u64::MAX - 3, den: 4, hint: Hint::Fraction };
    assert!(big.multiply(1, 12).is_ok());
}
