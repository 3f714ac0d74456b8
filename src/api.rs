use vstd::prelude::*;
use crate::recipe::{parses_to, Recipe as Document};
use crate::text::{chars_eq, chars_of, push_all, slice_of, string_of};
use crate::transform::{is_divisor, recipe};

verus! {

/// The kinds of image that a recipe may carry.
#[derive(PartialEq, Eq, Structural, Clone, Copy, Debug)]
pub enum ImageKind {
    Png,
    Jpeg,
    Svg,
}

impl ImageKind {
    /// The subtype of the kind's `image/...` media type.
    pub fn subtype(&self) -> (r: &'static str)
        ensures
            *self == ImageKind::Png ==> r@ == "png"@,
            *self == ImageKind::Jpeg ==> r@ == "jpeg"@,
            *self == ImageKind::Svg ==> r@ == "svg+xml"@,
    {
        match self {
            ImageKind::Png => "png",
            ImageKind::Jpeg => "jpeg",
            ImageKind::Svg => "svg+xml",
        }
    }
}

/// Index of the last `.` before `k`, or -1.
pub open spec fn dot_before(s: Seq<char>, k: int) -> int
    decreases k,
{
    if k <= 0 || k > s.len() {
        -1
    } else if s[k - 1] == '.' {
        k - 1
    } else {
        dot_before(s, k - 1)
    }
}

/// The kind of image that a file name's extension (after its last `.`) names.
pub open spec fn image_kind(name: Seq<char>) -> Option<ImageKind> {
    let d = dot_before(name, name.len() as int);
    let ext = name.subrange(d + 1, name.len() as int);
    if d < 0 {
        None
    } else if ext == seq!['p', 'n', 'g'] {
        Some(ImageKind::Png)
    } else if ext == seq!['j', 'p', 'e', 'g'] || ext == seq!['j', 'p', 'g'] {
        Some(ImageKind::Jpeg)
    } else if ext == seq!['s', 'v', 'g'] {
        Some(ImageKind::Svg)
    } else {
        None
    }
}

/// The kind of image stored under `name`, by its extension.
pub fn image_type(name: &str) -> (r: Option<ImageKind>)
    ensures
        r == image_kind(name@),
{
    let s = chars_of(name);
    let n = s.len();
    let mut k: usize = n;
    while k > 0 && s[k - 1] != '.'
        invariant
            k <= n == s@.len(),
            dot_before(s@, n as int) == dot_before(s@, k as int),
        decreases k,
    {
        k = k - 1;
    }
    if k == 0 {
        return None;
    }
    let ext = slice_of(s.as_slice(), k, n);
    let png: &[char] = &['p', 'n', 'g'];
    let jpeg: &[char] = &['j', 'p', 'e', 'g'];
    let jpg: &[char] = &['j', 'p', 'g'];
    let svg: &[char] = &['s', 'v', 'g'];
    assert(png@ =~= seq!['p', 'n', 'g']);
    assert(jpeg@ =~= seq!['j', 'p', 'e', 'g']);
    assert(jpg@ =~= seq!['j', 'p', 'g']);
    assert(svg@ =~= seq!['s', 'v', 'g']);
    if chars_eq(ext.as_slice(), png) {
        Some(ImageKind::Png)
    } else if chars_eq(ext.as_slice(), jpeg) || chars_eq(ext.as_slice(), jpg) {
        Some(ImageKind::Jpeg)
    } else if chars_eq(ext.as_slice(), svg) {
        Some(ImageKind::Svg)
    } else {
        None
    }
}

/// The document that a new recipe called `name` starts with.
pub fn new_recipe_content(name: &str) -> (r: String)
    ensures
        r@ == "# "@ + name@
            + "\n\n## Ingredients\n\n- 1 cup ingredient\n\n## Directions\n\n- An instruction"@,
{
    let mut out = chars_of("# ");
    let body = chars_of(name);
    push_all(&mut out, body.as_slice());
    let tail = chars_of("\n\n## Ingredients\n\n- 1 cup ingredient\n\n## Directions\n\n- An instruction");
    push_all(&mut out, tail.as_slice());
    string_of(out)
}

/// A stored recipe as the service hands it out: its document and the
/// divisors to offer for it.
pub struct Recipe {
    pub slug: String,
    pub content: String,
    pub factors: Vec<i32>,
    pub image: String,
}

impl Recipe {
    /// The record for a stored row; `image` is the image's name, if any.
    pub fn from_row(slug: String, content: String, image: Option<String>) -> (r: Recipe)
        ensures
            r.slug@ == slug@,
            r.content@ == content@,
            r.image@ == (match image {
                Some(i) => i@,
                None => Seq::<char>::empty(),
            }),
            exists|d: Document|
                {
                    &&& parses_to(content@, d)
                    &&& forall|k: int|
                        0 <= k < r.factors@.len() ==> #[trigger] r.factors@[k] >= 0 && is_divisor(
                            d,
                            r.factors@[k] as nat,
                        )
                    &&& forall|n: nat| is_divisor(d, n) ==> r.factors@.contains(n as i32)
                    &&& forall|a: int, b: int|
                        0 <= a < b < r.factors@.len() ==> r.factors@[a] < r.factors@[b]
                },
    {
        let doc = recipe(content.clone());
        let ds = doc.divisors();
        let mut factors: Vec<i32> = Vec::new();
        let mut k: usize = 0;
        while k < ds.len()
            invariant
                k <= ds@.len(),
                factors@.len() == k,
                forall|j: int| 0 <= j < ds@.len() ==> is_divisor(doc, #[trigger] ds@[j] as nat),
                forall|j: int| 0 <= j < k ==> #[trigger] factors@[j] as int == ds@[j] as int,
            decreases ds@.len() - k,
        {
            assert(is_divisor(doc, ds@[k as int] as nat));
            factors.push(ds[k] as i32);
            k = k + 1;
        }
        proof {
            assert forall|n: nat| is_divisor(doc, n) implies factors@.contains(n as i32) by {
                assert(ds@.contains(n as u64));
                let w = choose|w: int| 0 <= w < ds@.len() && ds@[w] == n as u64;
                assert(factors@[w] == n as i32);
            }
        }
        let image = match image {
            Some(i) => i,
            None => String::new(),
        };
        Recipe { slug, content, factors, image }
    }
}

} // verus!
