//! Author colours: a golden-angle walk around the hue circle, HSL to RGB
//! conversion in exact fixed-point arithmetic, brightening, dimming, and
//! terminal colour codes.
//!
//! Hues are in thousandths of a degree, saturation and lightness in
//! thousandths; every channel is the floor of the exact rational value.

use vstd::prelude::*;
use crate::decimal::dec_nat;
use crate::strmap::{StrMap, has_key};
use crate::text::{lex_lt, str_lt, push_str, lemma_lex_irreflexive, lemma_lex_transitive, lemma_lex_total};
use crate::types::{Forest, strings_view};

verus! {

/// The absolute value of an integer.
pub open spec fn abs_int(x: int) -> int {
    if x < 0 { -x } else { x }
}

/// Chroma `(1 - |2l - 1|) * s`, in millionths.
pub open spec fn chroma(s: int, l: int) -> int {
    (1000 - abs_int(2 * l - 1000)) * s
}

/// The common denominator of the fixed-point channel values.
pub open spec fn channel_denominator() -> int {
    120_000_000_000
}

/// The red, green and blue values `(r1 + m, g1 + m, b1 + m)` of the HSL formula,
/// scaled by `channel_denominator()`.
pub open spec fn hsl_scaled(h: int, s: int, l: int) -> (int, int, int) {
    let c = chroma(s, l);
    let d = abs_int(h % 120000 - 60000);
    let cc = c * 120000;
    let x = c * (60000 - d) * 2;
    let m = (2000 * l - c) * 60000;
    if h < 60000 {
        (cc + m, x + m, m)
    } else if h < 120000 {
        (x + m, cc + m, m)
    } else if h < 180000 {
        (m, cc + m, x + m)
    } else if h < 240000 {
        (m, x + m, cc + m)
    } else if h < 300000 {
        (x + m, m, cc + m)
    } else {
        (cc + m, m, x + m)
    }
}

/// A scaled channel value as a byte: `floor(v * 255)`.
pub open spec fn channel_byte(v: int) -> u8 {
    (v * 255 / channel_denominator()) as u8
}

/// HSL to RGB: hue `h` in thousandths of a degree, saturation `s` and lightness `l`
/// in thousandths.
pub open spec fn spec_hsl_to_rgb(h: int, s: int, l: int) -> (u8, u8, u8) {
    let v = hsl_scaled(h, s, l);
    (channel_byte(v.0), channel_byte(v.1), channel_byte(v.2))
}

proof fn lemma_channel_bounds(c: int, s: int, l: int, x: int, d: int)
    requires
        0 <= s <= 1000,
        0 <= l <= 1000,
        c == chroma(s, l),
        0 <= d <= 60000,
        x == c * (60000 - d) * 2,
    ensures
        0 <= c <= 1_000_000,
        0 <= x <= c * 120000,
        0 <= 2000 * l - c,
        c * 120000 + (2000 * l - c) * 60000 <= channel_denominator(),
{
    let a = 1000 - abs_int(2 * l - 1000);
    assert(0 <= a <= 1000);
    assert(0 <= a * s <= 1000 * 1000) by (nonlinear_arith)
        requires
            0 <= a <= 1000,
            0 <= s <= 1000,
    ;
    assert(0 <= c * (60000 - d) <= c * 60000) by (nonlinear_arith)
        requires
            0 <= c,
            0 <= d <= 60000,
    ;
    assert(a * s <= a * 1000) by (nonlinear_arith)
        requires
            0 <= a,
            0 <= s <= 1000,
    ;
    if l <= 500 {
        assert(a == 2 * l);
    } else {
        assert(a == 2000 - 2 * l);
    }
}

/// Converts HSL to RGB (fixed point: `h` in thousandths of a degree, `s` and `l`
/// in thousandths); each channel is `floor((channel + m) * 255)`.
pub fn hsl_to_rgb(h: u32, s: u32, l: u32) -> (rgb: (u8, u8, u8))
    requires
        s <= 1000,
        l <= 1000,
    ensures
        rgb == spec_hsl_to_rgb(h as int, s as int, l as int),
{
    let two_l: u64 = 2 * (l as u64);
    let dist: u64 = if two_l >= 1000 { two_l - 1000 } else { 1000 - two_l };
    let a: u64 = 1000 - dist;
    let hm: u64 = (h as u64) % 120000;
    let d: u64 = if hm >= 60000 { hm - 60000 } else { 60000 - hm };
    proof {
        assert(a as int == 1000 - abs_int(2 * l - 1000));
        assert(d as int == abs_int(h % 120000 - 60000));
        lemma_channel_bounds(a * s, s as int, l as int, a * s * (60000 - d) * 2, d as int);
    }
    let c: u64 = a * (s as u64);
    let cc: u64 = c * 120000;
    let x: u64 = c * (60000 - d) * 2;
    let m: u64 = (2000 * (l as u64) - c) * 60000;
    let (r1, g1, b1): (u64, u64, u64) = if h < 60000 {
        (cc, x, 0)
    } else if h < 120000 {
        (x, cc, 0)
    } else if h < 180000 {
        (0, cc, x)
    } else if h < 240000 {
        (0, x, cc)
    } else if h < 300000 {
        (x, 0, cc)
    } else {
        (cc, 0, x)
    };
    let den: u64 = 120_000_000_000;
    let r = ((r1 + m) * 255 / den) as u8;
    let g = ((g1 + m) * 255 / den) as u8;
    let b = ((b1 + m) * 255 / den) as u8;
    (r, g, b)
}

/// Hue of the `k`-th colour: `k` steps of the golden angle (137.508 degrees)
/// around the circle, in thousandths of a degree.
pub open spec fn golden_hue(k: nat) -> int
    decreases k,
{
    if k == 0 {
        0
    } else {
        (golden_hue((k - 1) as nat) + 137508) % 360000
    }
}

/// The colour of the `k`-th author in sorted order: saturation 0.7, lightness 0.6.
pub open spec fn golden_color(k: nat) -> (u8, u8, u8) {
    spec_hsl_to_rgb(golden_hue(k), 700, 600)
}

/// The keys of an entry sequence.
pub open spec fn entry_keys<V>(s: Seq<(Seq<char>, V)>) -> Seq<Seq<char>> {
    s.map_values(|e: (Seq<char>, V)| e.0)
}

/// Strictly increasing in lexicographic order.
pub open spec fn strictly_sorted(s: Seq<Seq<char>>) -> bool {
    forall|i: int, j: int| 0 <= i < j < s.len() ==> lex_lt(#[trigger] s[i], #[trigger] s[j])
}

/// The set of authors of the commits of a forest.
pub open spec fn forest_authors(forest: &Forest) -> Set<Seq<char>> {
    Set::new(|a: Seq<char>| exists|i: int| 0 <= i < forest.commit_map@.len() && #[trigger] forest.commit_map@[i].1.author@ == a)
}

/// Whether `colors` gives each author of `forest` its golden-angle colour:
/// the keys are exactly the authors, in increasing order, and the author of
/// rank `k` has colour `golden_color(k)`.
pub open spec fn is_author_palette(forest: &Forest, colors: Seq<(Seq<char>, (u8, u8, u8))>) -> bool {
    &&& strictly_sorted(entry_keys(colors))
    &&& entry_keys(colors).to_set() == forest_authors(forest)
    &&& forall|k: int| 0 <= k < colors.len() ==> #[trigger] colors[k].1 == golden_color(k as nat)
}

/// Inserts `a` into a strictly sorted vector unless it is already there.
fn insert_sorted_unique(v: &mut Vec<String>, a: String)
    requires
        strictly_sorted(strings_view(old(v)@)),
    ensures
        strictly_sorted(strings_view(final(v)@)),
        strings_view(final(v)@).to_set() == strings_view(old(v)@).to_set().insert(a@),
{
    let ghost old_v = strings_view(v@);
    let mut p: usize = 0;
    while p < v.len() && str_lt(v[p].as_str(), a.as_str())
        invariant
            p <= v.len(),
            strings_view(v@) == old_v,
            forall|j: int| 0 <= j < p ==> lex_lt(#[trigger] old_v[j], a@),
        decreases v.len() - p,
    {
        p = p + 1;
    }
    if p < v.len() && v[p] == a {
        assert(old_v.to_set() =~= old_v.to_set().insert(a@)) by {
            assert(old_v[p as int] == a@);
        }
        return;
    }
    proof {
        if p < v.len() {
            lemma_lex_total(old_v[p as int], a@);
        }
    }
    v.insert(p, a);
    proof {
        let nv = strings_view(v@);
        assert(nv.len() == old_v.len() + 1);
        assert forall|j: int| 0 <= j < nv.len() implies #[trigger] nv[j] == (if j < p { old_v[j] } else if j == p { a@ } else { old_v[j - 1] }) by {}
        assert forall|i: int, j: int| 0 <= i < j < nv.len() implies lex_lt(#[trigger] nv[i], #[trigger] nv[j]) by {
            if j == p {
            } else if i == p {
                if j - 1 > p {
                    lemma_lex_transitive(a@, old_v[p as int], old_v[j - 1]);
                }
            } else if i < p && j > p {
                if j - 1 > p {
                    lemma_lex_transitive(a@, old_v[p as int], old_v[j - 1]);
                }
                lemma_lex_transitive(old_v[i], a@, old_v[j - 1]);
            } else if i > p {
                assert(lex_lt(old_v[i - 1], old_v[j - 1]));
            }
        }
        assert(nv.to_set() =~= old_v.to_set().insert(a@)) by {
            assert forall|x: Seq<char>| nv.to_set().contains(x) implies old_v.to_set().insert(a@).contains(x) by {
                let j = choose|j: int| 0 <= j < nv.len() && nv[j] == x;
                if j < p {
                    assert(old_v[j] == x);
                } else if j > p {
                    assert(old_v[j - 1] == x);
                }
            }
            assert forall|x: Seq<char>| old_v.to_set().insert(a@).contains(x) implies nv.to_set().contains(x) by {
                if x == a@ {
                    assert(nv[p as int] == x);
                } else {
                    let j = choose|j: int| 0 <= j < old_v.len() && old_v[j] == x;
                    if j < p {
                        assert(nv[j] == x);
                    } else {
                        assert(nv[j + 1] == x);
                    }
                }
            }
        }
    }
}

/// Assigns each author of the forest a colour: authors are sorted, and the
/// author of rank `k` gets the colour `k` golden-angle steps around the hue circle
/// (saturation 0.7, lightness 0.6).
pub fn assign_author_colors(forest: &Forest) -> (colors: StrMap<(u8, u8, u8)>)
    ensures
        is_author_palette(forest, colors@),
{
    let mut authors: Vec<String> = Vec::new();
    let n = forest.commit_map.len();
    let mut i: usize = 0;
    while i < n
        invariant
            n == forest.commit_map@.len(),
            i <= n,
            strictly_sorted(strings_view(authors@)),
            strings_view(authors@).to_set() == Set::new(|a: Seq<char>| exists|j: int| 0 <= j < i && #[trigger] forest.commit_map@[j].1.author@ == a),
        decreases n - i,
    {
        let node = forest.commit_map.value_at(i);
        let ghost before = strings_view(authors@).to_set();
        insert_sorted_unique(&mut authors, node.author.clone());
        proof {
            assert(strings_view(authors@).to_set() =~= Set::new(|a: Seq<char>| exists|j: int| 0 <= j < i + 1 && #[trigger] forest.commit_map@[j].1.author@ == a)) by {
                assert forall|a: Seq<char>| #[trigger] strings_view(authors@).to_set().contains(a) implies (exists|j: int| 0 <= j < i + 1 && #[trigger] forest.commit_map@[j].1.author@ == a) by {
                    if a != node.author@ {
                        assert(before.contains(a));
                    }
                }
            }
        }
        i = i + 1;
    }
    assert(strings_view(authors@).to_set() =~= forest_authors(forest));
    let mut colors: StrMap<(u8, u8, u8)> = StrMap::new();
    let mut hue: u32 = 0;
    let mut k: usize = 0;
    while k < authors.len()
        invariant
            k <= authors@.len(),
            strictly_sorted(strings_view(authors@)),
            hue == golden_hue(k as nat),
            0 <= hue < 360000,
            entry_keys(colors@) == strings_view(authors@).subrange(0, k as int),
            forall|j: int| 0 <= j < colors@.len() ==> #[trigger] colors@[j].1 == golden_color(j as nat),
        decreases authors.len() - k,
    {
        let rgb = hsl_to_rgb(hue, 700, 600);
        let ghost before = colors@;
        proof {
            assert(!has_key(before, authors@[k as int]@)) by {
                if has_key(before, authors@[k as int]@) {
                    let j = choose|j: int| 0 <= j < before.len() && #[trigger] before[j].0 == authors@[k as int]@;
                    assert(entry_keys(before).len() == before.len());
                    assert(j < k);
                    assert(entry_keys(before)[j] == before[j].0);
                    assert(entry_keys(before)[j] == strings_view(authors@).subrange(0, k as int)[j]);
                    assert(strings_view(authors@)[k as int] == authors@[k as int]@);
                    assert(lex_lt(strings_view(authors@)[j], strings_view(authors@)[k as int]));
                    lemma_lex_irreflexive(authors@[k as int]@);
                }
            }
        }
        colors.insert(authors[k].clone(), rgb);
        assert(colors@ == before.push((authors@[k as int]@, rgb)));
        assert(entry_keys(colors@) =~= entry_keys(before).push(authors@[k as int]@));
        assert(strings_view(authors@).subrange(0, k + 1) =~= strings_view(authors@).subrange(0, k as int).push(authors@[k as int]@));
        hue = (hue + 137508) % 360000;
        k = k + 1;
        assert(entry_keys(colors@) =~= strings_view(authors@).subrange(0, k as int));
    }
    assert(strings_view(authors@).subrange(0, k as int) =~= strings_view(authors@));
    colors
}

/// A brighter version of a colour: each channel times 1.3, capped at 255, rounded down.
pub fn highlight_color(r: u8, g: u8, b: u8) -> (rgb: (u8, u8, u8))
    ensures
        rgb.0 == (if r * 13 / 10 > 255 { 255 } else { r * 13 / 10 }),
        rgb.1 == (if g * 13 / 10 > 255 { 255 } else { g * 13 / 10 }),
        rgb.2 == (if b * 13 / 10 > 255 { 255 } else { b * 13 / 10 }),
        rgb.0 >= r && rgb.1 >= g && rgb.2 >= b,
{
    (brighten(r), brighten(g), brighten(b))
}

fn brighten(c: u8) -> (o: u8)
    ensures
        o == (if c * 13 / 10 > 255 { 255 } else { c * 13 / 10 }),
        o >= c,
{
    let v: u32 = (c as u32) * 13 / 10;
    if v > 255 { 255 } else { v as u8 }
}

/// A dimmed version of a colour: each channel times 0.6, rounded down.
pub fn dim_color(r: u8, g: u8, b: u8) -> (rgb: (u8, u8, u8))
    ensures
        rgb.0 == r * 6 / 10,
        rgb.1 == g * 6 / 10,
        rgb.2 == b * 6 / 10,
        r > 0 ==> rgb.0 < r,
        g > 0 ==> rgb.1 < g,
        b > 0 ==> rgb.2 < b,
{
    (((r as u32) * 6 / 10) as u8, ((g as u32) * 6 / 10) as u8, ((b as u32) * 6 / 10) as u8)
}

/// The escape sequence that sets a 24-bit foreground colour.
pub open spec fn rgb_fg_code(r: u8, g: u8, b: u8) -> Seq<char> {
    "\x1b[38;2;"@ + dec_nat(r as nat) + ";"@ + dec_nat(g as nat) + ";"@ + dec_nat(b as nat) + "m"@
}

/// The escape sequence that resets the foreground colour.
pub open spec fn fg_reset_code() -> Seq<char> {
    "\x1b[39m"@
}

/// `termion::color::Fg(termion::color::Rgb(r, g, b))` written with `Display`.
/// termion writes `Rgb::fg_string`, the 24-bit foreground sequence, unless the
/// `NO_COLOR` environment variable is set, in which case it writes nothing.
#[verifier::external_body]
pub(crate) fn fg_rgb(r: u8, g: u8, b: u8) -> (code: String)
    ensures
        code@ == rgb_fg_code(r, g, b) || code@ == Seq::<char>::empty(),
{
    format!("{}", termion::color::Fg(termion::color::Rgb(r, g, b)))
}

/// `termion::color::Fg(termion::color::Reset)` written with `Display`: termion
/// always writes the foreground reset sequence `ESC [39m`.
#[verifier::external_body]
pub(crate) fn fg_reset() -> (code: String)
    ensures
        code@ == fg_reset_code(),
{
    format!("{}", termion::color::Fg(termion::color::Reset))
}

/// Wraps `text` in a 24-bit foreground colour and a colour reset.
pub fn colorize(text: &str, r: u8, g: u8, b: u8) -> (s: String)
    ensures
        s@ == rgb_fg_code(r, g, b) + text@ + fg_reset_code() || s@ == text@ + fg_reset_code(),
{
    let mut s = fg_rgb(r, g, b);
    push_str(&mut s, text);
    let reset = fg_reset();
    push_str(&mut s, reset.as_str());
    s
}


/// Two strictly sorted sequences with the same elements are equal.
pub proof fn lemma_sorted_same_set_equal(a: Seq<Seq<char>>, b: Seq<Seq<char>>)
    requires
        strictly_sorted(a),
        strictly_sorted(b),
        a.to_set() == b.to_set(),
    ensures
        a == b,
    decreases a.len() + b.len(),
{
    if a.len() == 0 || b.len() == 0 {
        if a.len() > 0 {
            assert(a.to_set().contains(a[0]));
        }
        if b.len() > 0 {
            assert(b.to_set().contains(b[0]));
        }
        assert(a =~= b);
    } else {
        assert(a.to_set().contains(a[0]));
        assert(b.to_set().contains(a[0]));
        let j = choose|j: int| 0 <= j < b.len() && b[j] == a[0];
        assert(b.to_set().contains(b[0]));
        assert(a.to_set().contains(b[0]));
        let k = choose|k: int| 0 <= k < a.len() && a[k] == b[0];
        if j > 0 {
            assert(lex_lt(b[0], b[j]));
            if k > 0 {
                assert(lex_lt(a[0], a[k]));
                lemma_lex_total(a[0], b[0]);
            } else {
                lemma_lex_irreflexive(a[0]);
            }
        }
        assert(a[0] == b[0]);
        let a2 = a.drop_first();
        let b2 = b.drop_first();
        assert forall|x: Seq<char>| a2.to_set().contains(x) implies b2.to_set().contains(x) by {
            let i = choose|i: int| 0 <= i < a2.len() && a2[i] == x;
            assert(lex_lt(a[0], a[i + 1]));
            assert(b.to_set().contains(x));
            let m = choose|m: int| 0 <= m < b.len() && b[m] == x;
            if m == 0 {
                lemma_lex_irreflexive(x);
            }
            assert(b2[m - 1] == x);
        }
        assert forall|x: Seq<char>| b2.to_set().contains(x) implies a2.to_set().contains(x) by {
            let i = choose|i: int| 0 <= i < b2.len() && b2[i] == x;
            assert(lex_lt(b[0], b[i + 1]));
            assert(a.to_set().contains(x));
            let m = choose|m: int| 0 <= m < a.len() && a[m] == x;
            if m == 0 {
                lemma_lex_irreflexive(x);
            }
            assert(a2[m - 1] == x);
        }
        assert(a2.to_set() =~= b2.to_set());
        lemma_sorted_same_set_equal(a2, b2);
        assert(a =~= b) by {
            assert forall|i: int| 0 <= i < a.len() implies a[i] == b[i] by {
                if i > 0 {
                    assert(a[i] == a2[i - 1]);
                    assert(b[i] == b2[i - 1]);
                }
            }
        }
    }
}

/// The author palette of a forest is determined by the forest: any two palettes
/// that give each author its golden-angle colour by rank are the same.
pub proof fn lemma_palette_unique(forest: &Forest, p1: Seq<(Seq<char>, (u8, u8, u8))>, p2: Seq<(Seq<char>, (u8, u8, u8))>)
    requires
        is_author_palette(forest, p1),
        is_author_palette(forest, p2),
    ensures
        p1 == p2,
{
    lemma_sorted_same_set_equal(entry_keys(p1), entry_keys(p2));
    assert(p1.len() == entry_keys(p1).len());
    assert forall|i: int| 0 <= i < p1.len() implies p1[i] == p2[i] by {
        assert(entry_keys(p1)[i] == p1[i].0);
        assert(entry_keys(p2)[i] == p2[i].0);
    }
    assert(p1 =~= p2);
}

/// The author palette of a forest: the one `assign_author_colors` returns.
pub open spec fn author_palette(forest: &Forest) -> Seq<(Seq<char>, (u8, u8, u8))> {
    choose|p: Seq<(Seq<char>, (u8, u8, u8))>| is_author_palette(forest, p)
}

/// A palette that `assign_author_colors` returned is `author_palette`.
pub proof fn lemma_author_palette(forest: &Forest, p: Seq<(Seq<char>, (u8, u8, u8))>)
    requires
        is_author_palette(forest, p),
    ensures
        author_palette(forest) == p,
{
    lemma_palette_unique(forest, author_palette(forest), p);
}


/// The golden-angle walk is evenly spread: the hue of the `k`-th colour is `k`
/// golden angles (137.508 degrees) around the circle.
pub proof fn lemma_golden_hue_closed_form(k: nat)
    ensures
        golden_hue(k) == (137508 * k) % 360000,
    decreases k,
{
    if k > 0 {
        lemma_golden_hue_closed_form((k - 1) as nat);
        let a = 137508 * (k - 1);
        assert(137508 * k == a + 137508);
        vstd::arithmetic::div_mod::lemma_add_mod_noop(a, 137508, 360000);
        vstd::arithmetic::div_mod::lemma_mod_twice(a, 360000);
        vstd::arithmetic::div_mod::lemma_add_mod_noop(a % 360000, 137508, 360000);
    }
}

/// Consecutive golden-angle hues stay apart: `n` steps of 137.508 degrees, for
/// `n` from 1 to 609, end at least 0.516 degrees away from the start.
#[verifier::rlimit(40)]
proof fn lemma_golden_step_gap(n: int)
    requires
        1 <= n <= 609,
    ensures
        516 <= (137508 * n) % 360000 <= 360000 - 516,
{
}

/// The middle channel of a palette colour whose hue lies `d` thousandths of a
/// degree from the nearest primary or secondary hue.
spec fn palette_mid_byte(d: int) -> int {
    (105600000000 - 1120000 * d) * 255 / 120000000000
}

/// The sixth of the hue circle that holds hue `h`.
spec fn sector_of(h: int) -> int {
    if h < 60000 { 0 } else if h < 120000 { 1 } else if h < 180000 { 2 } else if h < 240000 { 3 } else if h < 300000 { 4 } else { 5 }
}

/// How far hue `h` lies from the hue of its sector where the middle channel is lowest.
spec fn palette_d(h: int) -> int {
    if h < 60000 { 60000 - h } else if h < 120000 { h - 60000 } else if h < 180000 { 180000 - h }
    else if h < 240000 { h - 180000 } else if h < 300000 { 300000 - h } else { h - 300000 }
}

/// A palette colour (saturation 0.7, lightness 0.6) has one channel at 224, one at
/// 81 and one in between that depends on the hue's place in its sector.
proof fn lemma_palette_color_form(h: int)
    requires
        0 <= h < 360000,
    ensures
        spec_hsl_to_rgb(h, 700, 600) == (if h < 60000 {
            (224u8, palette_mid_byte(palette_d(h)) as u8, 81u8)
        } else if h < 120000 {
            (palette_mid_byte(palette_d(h)) as u8, 224u8, 81u8)
        } else if h < 180000 {
            (81u8, 224u8, palette_mid_byte(palette_d(h)) as u8)
        } else if h < 240000 {
            (81u8, palette_mid_byte(palette_d(h)) as u8, 224u8)
        } else if h < 300000 {
            (palette_mid_byte(palette_d(h)) as u8, 81u8, 224u8)
        } else {
            (224u8, 81u8, palette_mid_byte(palette_d(h)) as u8)
        }),
{
    let c = chroma(700, 600);
    assert(c == 560000);
    let d = abs_int(h % 120000 - 60000);
    assert(0 <= d <= 60000);
    assert(c * (60000 - d) * 2 == 1120000 * (60000 - d)) by (nonlinear_arith)
        requires
            c == 560000,
    ;
    assert(c * 120000 == 67200000000);
    assert((2000 * 600 - c) * 60000 == 38400000000);
    let hi: int = 105600000000;
    let lo: int = 38400000000;
    assert(channel_byte(hi) == 224u8);
    assert(channel_byte(lo) == 81u8);
    let mid = 1120000 * (60000 - d) + 38400000000;
    assert(mid == 105600000000 - 1120000 * d);
    assert(channel_byte(mid) == palette_mid_byte(d) as u8);
    if h < 120000 {
        assert(h % 120000 == h);
    } else if h < 240000 {
        assert(h % 120000 == h - 120000);
    } else {
        assert(h % 120000 == h - 240000);
    }
    assert(d == palette_d(h));
}

/// The middle channel lies between 81 and 224, and reaches them only near the
/// ends of a sector.
proof fn lemma_mid_byte_range(d: int)
    requires
        0 <= d <= 60000,
    ensures
        81 <= palette_mid_byte(d) <= 224,
        (palette_mid_byte(d) as u8) as int == palette_mid_byte(d),
        palette_mid_byte(d) == 224 ==> d <= 168,
        palette_mid_byte(d) == 81 ==> d >= 59832,
{
}

/// Equal middle channels come from places at most 0.42 degrees apart.
proof fn lemma_mid_byte_close(d1: int, d2: int)
    requires
        0 <= d1 <= 60000,
        0 <= d2 <= 60000,
        palette_mid_byte(d1) == palette_mid_byte(d2),
    ensures
        abs_int(d1 - d2) <= 420,
{
}

/// The distance between two hues around the circle, in thousandths of a degree.
pub open spec fn hue_distance(a: int, b: int) -> int {
    let d = abs_int(a - b);
    if d <= 180000 { d } else { 360000 - d }
}

/// Two hues with the same palette colour are at most 0.42 degrees apart.
#[verifier::rlimit(40)]
proof fn lemma_same_palette_color_close(h1: int, h2: int)
    requires
        0 <= h1 < 360000,
        0 <= h2 < 360000,
        spec_hsl_to_rgb(h1, 700, 600) == spec_hsl_to_rgb(h2, 700, 600),
    ensures
        hue_distance(h1, h2) <= 420,
{
    lemma_palette_color_form(h1);
    lemma_palette_color_form(h2);
    lemma_mid_byte_range(palette_d(h1));
    lemma_mid_byte_range(palette_d(h2));
    if sector_of(h1) == sector_of(h2) {
        lemma_mid_byte_close(palette_d(h1), palette_d(h2));
    }
}

/// The golden-angle colours of ranks below 610 are all different.
pub proof fn lemma_golden_colors_differ(i: nat, j: nat)
    requires
        i < j < 610,
    ensures
        golden_color(i) != golden_color(j),
{
    lemma_golden_hue_closed_form(i);
    lemma_golden_hue_closed_form(j);
    let hi: int = (137508 * i as int) % 360000;
    let hj: int = (137508 * j as int) % 360000;
    let r: int = (137508 * (j - i)) % 360000;
    lemma_golden_step_gap(j - i);
    vstd::arithmetic::div_mod::lemma_sub_mod_noop((137508 * j) as int, (137508 * i) as int, 360000);
    assert(137508 * j - 137508 * i == 137508 * (j - i));
    assert((hj - hi) % 360000 == r);
    if hj >= hi {
        assert(hj - hi == r);
    } else {
        assert(hj - hi + 360000 == r);
    }
    assert(hue_distance(hi, hj) >= 516);
    if golden_color(i) == golden_color(j) {
        lemma_same_palette_color_close(hi, hj);
    }
}

/// Different authors get different colours when a forest has at most 610
/// authors (with more, the golden-angle walk comes back to colours already
/// given: the 611th author gets the first author's colour).
pub proof fn lemma_palette_colors_distinct(forest: &Forest, p: Seq<(Seq<char>, (u8, u8, u8))>)
    requires
        is_author_palette(forest, p),
        p.len() <= 610,
    ensures
        forall|i: int, j: int| 0 <= i < p.len() && 0 <= j < p.len() && p[i].0 != p[j].0 ==> #[trigger] p[i].1 != #[trigger] p[j].1,
{
    assert forall|i: int, j: int| 0 <= i < p.len() && 0 <= j < p.len() && p[i].0 != p[j].0 implies #[trigger] p[i].1 != #[trigger] p[j].1 by {
        if i < j {
            lemma_golden_colors_differ(i as nat, j as nat);
        } else if j < i {
            lemma_golden_colors_differ(j as nat, i as nat);
        }
    }
}

} // verus!
