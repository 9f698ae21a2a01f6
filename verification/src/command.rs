//! What a command line asks for: the decisions between reading its arguments and doing the work.

use crate::book::Book;
use crate::config::ResidualSettings;
use crate::ieee::{Double, Single};
use crate::mapmath::MapMath;
use crate::notation::Notation;
use crate::stats::{ascii_folds, dropped, folded, named, Quantity};
use crate::text::{
    before_suffix, chars_of, ends, find, next_at, number, parse_number, parts, split, text_of, trim,
    trimmed,
};
use crate::tfmap::MapGrid;
use vstd::prelude::*;

verus! {

// ---------------------------------------------------------------------------------------------
// sizes
// ---------------------------------------------------------------------------------------------

/// The first cross in a size, or the end.
pub open spec fn cross(s: Seq<char>, from: int) -> int
    decreases s.len() - from,
{
    if from >= s.len() || s[from] == 'x' || s[from] == 'X' {
        from
    } else {
        cross(s, from + 1)
    }
}

/// The size a text gives as `WIDTHxHEIGHT`, or what is wrong with it.
pub open spec fn size(s: Seq<char>) -> Result<(int, int), Seq<char>> {
    let at = cross(s, 0);
    let w = number(trimmed(s.take(at)), u32::MAX as int);
    let h = number(trimmed(s.skip(at + 1)), u32::MAX as int);
    if at >= s.len() {
        Err("size '"@ + s + "' wants WIDTHxHEIGHT"@)
    } else if w is None {
        Err("bad width in '"@ + s + "'"@)
    } else if h is None {
        Err("bad height in '"@ + s + "'"@)
    } else if w->0 == 0 || h->0 == 0 {
        Err("size '"@ + s + "' must be positive"@)
    } else {
        Ok((w->0, h->0))
    }
}

fn quoted(before: &str, s: &str, after: &str) -> (r: String)
    ensures
        r@ == before@ + s@ + after@,
{
    let mut out = before.to_owned();
    out.append(s);
    out.append(after);
    out
}

/// The size a text gives as `WIDTHxHEIGHT`.
pub fn parse_size(s: &str) -> (r: Result<(u32, u32), String>)
    ensures
        match (size(s@), r) {
            (Ok((w, h)), Ok(got)) => got.0 == w && got.1 == h,
            (Err(want), Err(why)) => why@ == want,
            _ => false,
        },
{
    let cs = chars_of(s);
    let mut at: usize = 0;
    while at < cs.len() && cs[at] != 'x' && cs[at] != 'X'
        invariant
            at <= cs@.len(),
            cs@ == s@,
            cross(s@, 0) == cross(s@, at as int),
        decreases cs@.len() - at,
    {
        at += 1;
    }
    if at == cs.len() {
        return Err(quoted("size '", s, "' wants WIDTHxHEIGHT"));
    }
    let left = vstd::slice::slice_subrange(cs.as_slice(), 0, at);
    assert(left@ =~= s@.take(at as int));
    let right = vstd::slice::slice_subrange(cs.as_slice(), at + 1, cs.len());
    assert(right@ =~= s@.skip(at + 1));
    let w: u32 = match parse_number(trim(left), u32::MAX as u64) {
        Some(w) => w as u32,
        None => {
            return Err(quoted("bad width in '", s, "'"));
        },
    };
    let h: u32 = match parse_number(trim(right), u32::MAX as u64) {
        Some(h) => h as u32,
        None => {
            return Err(quoted("bad height in '", s, "'"));
        },
    };
    if w == 0 || h == 0 {
        return Err(quoted("size '", s, "' must be positive"));
    }
    Ok((w, h))
}

// ---------------------------------------------------------------------------------------------
// quantities
// ---------------------------------------------------------------------------------------------

/// The name a quantity's file goes by.
pub open spec fn short_name(q: Quantity) -> Seq<char> {
    match q {
        Quantity::Alpha => "alpha"@,
        Quantity::Bandwidth => "bandwidth"@,
        Quantity::Beta => "beta"@,
        Quantity::Sigma => "sigma"@,
        Quantity::AlphaBeta => "alpha-beta"@,
        Quantity::Freq => "f"@,
        Quantity::AmpDb => "amp"@,
        Quantity::EnergyDb => "energy"@,
        Quantity::T0 => "t0"@,
        Quantity::SupportMs => "support"@,
        Quantity::FadeDurMs => "fade-dur"@,
        Quantity::Q => "q"@,
        Quantity::Rho => "rho"@,
        Quantity::Periods => "periods"@,
        Quantity::Block => "block"@,
    }
}

/// The name a quantity's file goes by.
pub fn slug(q: Quantity) -> (r: String)
    ensures
        r@ == short_name(q),
{
    let name = match q {
        Quantity::Alpha => "alpha",
        Quantity::Bandwidth => "bandwidth",
        Quantity::Beta => "beta",
        Quantity::Sigma => "sigma",
        Quantity::AlphaBeta => "alpha-beta",
        Quantity::Freq => "f",
        Quantity::AmpDb => "amp",
        Quantity::EnergyDb => "energy",
        Quantity::T0 => "t0",
        Quantity::SupportMs => "support",
        Quantity::FadeDurMs => "fade-dur",
        Quantity::Q => "q",
        Quantity::Rho => "rho",
        Quantity::Periods => "periods",
        Quantity::Block => "block",
    };
    name.to_owned()
}

/// A name with its dashes taken out.
pub open spec fn undashed(s: Seq<char>, n: int) -> Seq<char>
    decreases n,
{
    if n <= 0 {
        seq![]
    } else if s[n - 1] == '-' {
        undashed(s, n - 1)
    } else {
        undashed(s, n - 1).push(s[n - 1])
    }
}

/// Every quantity's name reads back as the quantity it names, so no two share one.
pub proof fn law_names_read_back(q: Quantity)
    ensures
        named(undashed(short_name(q), short_name(q).len() as int)) == Some(q),
{
    reveal_strlit("alpha");
    reveal_strlit("bandwidth");
    reveal_strlit("bw");
    reveal_strlit("beta");
    reveal_strlit("sigma");
    reveal_strlit("sigmams");
    reveal_strlit("alpha-beta");
    reveal_strlit("alphabeta");
    reveal_strlit("ab");
    reveal_strlit("f");
    reveal_strlit("freq");
    reveal_strlit("frequency");
    reveal_strlit("amp");
    reveal_strlit("ampdb");
    reveal_strlit("amplitude");
    reveal_strlit("energy");
    reveal_strlit("energydb");
    reveal_strlit("t0");
    reveal_strlit("onset");
    reveal_strlit("time");
    reveal_strlit("support");
    reveal_strlit("supportms");
    reveal_strlit("fade-dur");
    reveal_strlit("fadedur");
    reveal_strlit("fadedurms");
    reveal_strlit("fade");
    reveal_strlit("q");
    reveal_strlit("rho");
    reveal_strlit("periods");
    reveal_strlit("block");
    reveal_with_fuel(undashed, 12);
    let k = undashed(short_name(q), short_name(q).len() as int);
    match q {
        Quantity::Alpha => {
            assert(k =~= "alpha"@);
        },
        Quantity::Bandwidth => {
            assert(k =~= "bandwidth"@);
            assert(k.len() != "alpha"@.len());
        },
        Quantity::Beta => {
            assert(k =~= "beta"@);
            assert(k.len() == 4);
        },
        Quantity::Sigma => {
            assert(k =~= "sigma"@);
            assert(k[0] == 's');
            assert("alpha"@[0] == 'a');
        },
        Quantity::AlphaBeta => {
            assert(k =~= "alphabeta"@);
            assert(k[0] == 'a');
            assert("bandwidth"@[0] == 'b');
        },
        Quantity::Freq => {
            assert(k =~= "f"@);
            assert(k.len() == 1);
        },
        Quantity::AmpDb => {
            assert(k =~= "amp"@);
            assert(k.len() == 3);
        },
        Quantity::EnergyDb => {
            assert(k =~= "energy"@);
            assert(k.len() == 6);
        },
        Quantity::T0 => {
            assert(k =~= "t0"@);
            assert(k[0] == 't');
            assert("bw"@[0] == 'b');
            assert("ab"@[0] == 'a');
        },
        Quantity::SupportMs => {
            assert(k =~= "support"@);
            assert(k[1] == 'u');
            assert("sigmams"@[1] == 'i');
        },
        Quantity::FadeDurMs => {
            assert(k =~= "fadedur"@);
            assert(k[0] == 'f');
            assert("sigmams"@[0] == 's');
            assert("support"@[0] == 's');
        },
        Quantity::Q => {
            assert(k =~= "q"@);
            assert(k[0] == 'q');
            assert("f"@[0] == 'f');
        },
        Quantity::Rho => {
            assert(k =~= "rho"@);
            assert(k[0] == 'r');
            assert("amp"@[0] == 'a');
        },
        Quantity::Periods => {
            assert(k =~= "periods"@);
            assert(k[0] == 'p');
            assert("sigmams"@[0] == 's');
            assert("support"@[0] == 's');
            assert("fadedur"@[0] == 'f');
        },
        Quantity::Block => {
            assert(k =~= "block"@);
            assert(k[0] == 'b');
            assert("alpha"@[0] == 'a');
            assert("sigma"@[0] == 's');
            assert("ampdb"@[0] == 'a');
            assert("onset"@[0] == 'o');
        },
    }
}

/// A character that is a small letter, a digit or a dash.
pub open spec fn small(c: char) -> bool {
    ('a' <= c && c <= 'z') || ('0' <= c && c <= '9') || c == '-'
}

/// Names are of small letters, digits and dashes.
proof fn lemma_names_are_small(q: Quantity)
    ensures
        forall|i: int| 0 <= i < short_name(q).len() ==> small(#[trigger] short_name(q)[i]),
{
    reveal_strlit("alpha");
    reveal_strlit("bandwidth");
    reveal_strlit("beta");
    reveal_strlit("sigma");
    reveal_strlit("alpha-beta");
    reveal_strlit("f");
    reveal_strlit("amp");
    reveal_strlit("energy");
    reveal_strlit("t0");
    reveal_strlit("support");
    reveal_strlit("fade-dur");
    reveal_strlit("q");
    reveal_strlit("rho");
    reveal_strlit("periods");
    reveal_strlit("block");
}

proof fn lemma_folds_to_undashed(s: Seq<char>, n: int)
    requires
        0 <= n <= s.len(),
        forall|i: int| 0 <= i < n ==> small(#[trigger] s[i]),
        forall|i: int| 0 <= i < n && !dropped(s[i]) ==> ascii_folds(#[trigger] s[i]),
    ensures
        folded(s, n) == undashed(s, n),
    decreases n,
{
    if n > 0 {
        lemma_folds_to_undashed(s, n - 1);
        assert(small(s[n - 1]));
        if !dropped(s[n - 1]) {
            assert(ascii_folds(s[n - 1]));
            assert(folded(s, n) =~= undashed(s, n));
        }
    }
}

/// A quantity's name folds to what asks for it, given how its letters fold.
pub proof fn lemma_a_name_asks_for_its_quantity(q: Quantity)
    requires
        forall|i: int|
            0 <= i < short_name(q).len() && !dropped(short_name(q)[i]) ==> ascii_folds(
                #[trigger] short_name(q)[i],
            ),
    ensures
        named(folded(short_name(q), short_name(q).len() as int)) == Some(q),
{
    lemma_names_are_small(q);
    lemma_folds_to_undashed(short_name(q), short_name(q).len() as int);
    law_names_read_back(q);
}

/// Two quantities under one name are one quantity.
pub proof fn law_names_are_distinct(a: Quantity, b: Quantity)
    requires
        short_name(a) == short_name(b),
    ensures
        a == b,
{
    law_names_read_back(a);
    law_names_read_back(b);
}

/// The names in a list that are more than white space, of the first `n` parts.
pub open spec fn asked(list: Seq<Seq<char>>, n: int) -> Seq<Seq<char>>
    decreases n,
{
    if n <= 0 {
        seq![]
    } else if trimmed(list[n - 1]).len() == 0 {
        asked(list, n - 1)
    } else {
        asked(list, n - 1).push(trimmed(list[n - 1]))
    }
}

/// The quantity a name asks for.
pub open spec fn quantity_asked(name: Seq<char>) -> Option<Quantity> {
    named(crate::stats::folded(name, name.len() as int))
}

/// The quantities the first `n` names ask for, or the first name that asks for none.
pub open spec fn quantities_asked(names: Seq<Seq<char>>, n: int) -> Result<Seq<Quantity>, Seq<char>>
    decreases n,
{
    if n <= 0 {
        Ok(seq![])
    } else {
        match quantities_asked(names, n - 1) {
            Err(e) => Err(e),
            Ok(qs) => match quantity_asked(names[n - 1]) {
                Some(q) => Ok(qs.push(q)),
                None => Err("unknown quantity '"@ + names[n - 1] + "'"@),
            },
        }
    }
}

/// The quantities a comma-separated list asks for, or what is wrong with it.
pub open spec fn quantity_list(of: Seq<char>) -> Result<Seq<Quantity>, Seq<char>> {
    let names = asked(parts(of, ','), parts(of, ',').len() as int);
    match quantities_asked(names, names.len() as int) {
        Ok(qs) => if qs.len() == 0 {
            Err("--of listed no quantities"@)
        } else {
            Ok(qs)
        },
        Err(e) => Err(e),
    }
}

proof fn lemma_asked_stopped(names: Seq<Seq<char>>, a: int, b: int)
    requires
        0 <= a <= b,
        quantities_asked(names, a) is Err,
    ensures
        quantities_asked(names, b) == quantities_asked(names, a),
    decreases b,
{
    if a < b {
        lemma_asked_stopped(names, a, b - 1);
    }
}

/// The names asked for so far are the first of all those asked for.
proof fn lemma_asked_prefix(list: Seq<Seq<char>>, a: int, b: int)
    requires
        0 <= a <= b,
    ensures
        asked(list, a).len() <= asked(list, b).len(),
        forall|i: int| 0 <= i < asked(list, a).len() ==> #[trigger] asked(list, b)[i] == asked(list, a)[i],
    decreases b,
{
    if a < b {
        lemma_asked_prefix(list, a, b - 1);
    }
}

/// The quantities a comma-separated list asks for.
pub fn quantities(of: &str) -> (r: Result<Vec<Quantity>, String>)
    ensures
        match (quantity_list(of@), r) {
            (Ok(qs), Ok(got)) => got@ == qs,
            (Err(want), Err(why)) => why@ == want,
            _ => false,
        },
{
    let cs = chars_of(of);
    let list = split(cs.as_slice(), ',');
    let ghost all = parts(of@, ',');
    let ghost names = asked(all, all.len() as int);
    let mut out: Vec<Quantity> = Vec::new();
    let mut i: usize = 0;
    while i < list.len()
        invariant
            i <= list@.len(),
            all == parts(of@, ','),
            names == asked(all, all.len() as int),
            list@.len() == all.len(),
            forall|j: int| 0 <= j < list@.len() ==> (#[trigger] list@[j])@ == all[j],
            quantities_asked(names, asked(all, i as int).len() as int) == Ok::<
                Seq<Quantity>,
                Seq<char>,
            >(out@),
        decreases list@.len() - i,
    {
        let name = trim(list[i]);
        assert(name@ == trimmed(all[i as int]));
        if name.len() != 0 {
            let ghost had = asked(all, i as int).len() as int;
            proof {
                lemma_asked_prefix(all, i + 1, all.len() as int);
                assert(asked(all, i + 1)[had] == name@);
                assert(names[had] == name@);
            }
            let text = text_of(name);
            match Quantity::from_str(text.as_str()) {
                Ok(q) => {
                    out.push(q);
                },
                Err(why) => {
                    proof {
                        assert(quantities_asked(names, had + 1) == Err::<Seq<Quantity>, Seq<char>>(
                            why@,
                        ));
                        lemma_asked_prefix(all, i + 1, all.len() as int);
                        lemma_asked_stopped(names, had + 1, names.len() as int);
                    }
                    return Err(why);
                },
            }
        }
        i += 1;
    }
    if out.len() == 0 {
        return Err("--of listed no quantities".to_owned());
    }
    Ok(out)
}

/// The two ends a range is given by, without white space around either.
pub fn range_ends(text: &str) -> (r: Result<(String, String), String>)
    ensures
        ({
            let at = next_at(text@, ',', 0);
            match r {
                Ok((lo, hi)) => at < text@.len() && lo@ == trimmed(text@.take(at)) && hi@ == trimmed(
                    text@.skip(at + 1),
                ),
                Err(why) => at >= text@.len() && why@ == "--range wants LO,HI"@,
            }
        }),
{
    let cs = chars_of(text);
    let at: usize = find(cs.as_slice(), ',', 0);
    if at == cs.len() {
        return Err("--range wants LO,HI".to_owned());
    }
    let left = vstd::slice::slice_subrange(cs.as_slice(), 0, at);
    assert(left@ =~= text@.take(at as int));
    let right = vstd::slice::slice_subrange(cs.as_slice(), at + 1, cs.len());
    assert(right@ =~= text@.skip(at + 1));
    Ok((text_of(trim(left)), text_of(trim(right))))
}

/// What two contrary flags ask for, when either was given. A flag that was not typed overrides
/// nothing.
pub fn either(yes: bool, no: bool) -> (r: Option<bool>)
    ensures
        r == if yes {
            Some(true)
        } else if no {
            Some(false)
        } else {
            None
        },
{
    if yes {
        Some(true)
    } else if no {
        Some(false)
    } else {
        None
    }
}

// ---------------------------------------------------------------------------------------------
// images
// ---------------------------------------------------------------------------------------------

#[derive(Clone, Copy, Debug, PartialEq, Eq, Structural)]
pub enum Format {
    Text,
    Svg,
    Png,
}

/// SVG or PNG. Both go through the same drawing code; only the backend differs.
#[derive(Clone, Copy, Debug, PartialEq, Eq, Structural)]
pub enum Image {
    Svg,
    Png,
}

/// The image a format asks for.
pub fn image_of(f: Format) -> (r: Image)
    ensures
        r == if f is Png {
            Image::Png
        } else {
            Image::Svg
        },
{
    match f {
        Format::Png => Image::Png,
        _ => Image::Svg,
    }
}

/// Where an image goes.
#[derive(Debug)]
pub enum ImagePath {
    /// In the working directory, under this name.
    Here(String),
    /// In the directory that was given, under this name.
    Inside(String),
    /// In the file that was given.
    Exactly,
}

/// A file that was given to write to.
#[derive(Clone, Copy, Debug, PartialEq, Eq, Structural)]
pub struct Given {
    /// It is a directory already.
    pub is_dir: bool,
    pub has_extension: bool,
}

/// The name an image goes by where only its subject is known.
pub open spec fn image_name(name: Seq<char>, f: Format) -> Seq<char> {
    name + "."@ + (if f is Png {
        "png"@
    } else {
        "svg"@
    })
}

/// Where an image goes.
///
/// With several quantities, what was given names a directory and each gets its own file; with one, it
/// may name the file directly. With nothing given the file lands in the working directory under the
/// quantity's own name, so nothing is silently overwritten by a differently-named run.
pub fn image_path(out: Option<Given>, name: &str, f: Format, many: bool) -> (r: ImagePath)
    ensures
        match (out, r) {
            (None, ImagePath::Here(file)) => file@ == image_name(name@, f),
            (Some(g), ImagePath::Inside(file)) => (many || g.is_dir || !g.has_extension) && file@
                == image_name(name@, f),
            (Some(g), ImagePath::Exactly) => !many && !g.is_dir && g.has_extension,
            _ => false,
        },
{
    let mut file = name.to_owned();
    file.append(".");
    file.append(
        match f {
            Format::Png => "png",
            _ => "svg",
        },
    );
    match out {
        None => ImagePath::Here(file),
        Some(g) => {
            if many || g.is_dir || !g.has_extension {
                ImagePath::Inside(file)
            } else {
                ImagePath::Exactly
            }
        },
    }
}

/// Images of different quantities never share a file in one directory.
pub proof fn law_images_do_not_collide(a: Quantity, b: Quantity, f: Format)
    requires
        image_name(short_name(a), f) == image_name(short_name(b), f),
    ensures
        a == b,
{
    let tail = "."@ + (if f is Png {
        "png"@
    } else {
        "svg"@
    });
    let (x, y) = (short_name(a), short_name(b));
    assert(image_name(x, f) =~= x + tail);
    assert(image_name(y, f) =~= y + tail);
    assert(x.len() == y.len());
    assert(x =~= (x + tail).take(x.len() as int));
    assert(y =~= (y + tail).take(y.len() as int));
    law_names_are_distinct(a, b);
}

/// Where a sans font is likely to live, in preference order.
pub open spec fn fonts() -> Seq<Seq<char>> {
    seq![
        "/usr/share/fonts/truetype/dejavu/DejaVuSans.ttf"@,
        "/usr/share/fonts/truetype/liberation/LiberationSans-Regular.ttf"@,
        "/usr/share/fonts/truetype/freefont/FreeSans.ttf"@,
        "/usr/share/fonts/TTF/DejaVuSans.ttf"@,
        "/usr/share/fonts/dejavu/DejaVuSans.ttf"@,
        "/Library/Fonts/Arial.ttf"@,
        "/System/Library/Fonts/Helvetica.ttc"@,
    ]
}

/// Where a sans font is likely to live, in preference order.
pub fn font_candidates() -> (r: Vec<String>)
    ensures
        crate::table::texts(r@) == fonts(),
{
    let mut out: Vec<String> = Vec::new();
    out.push("/usr/share/fonts/truetype/dejavu/DejaVuSans.ttf".to_owned());
    out.push("/usr/share/fonts/truetype/liberation/LiberationSans-Regular.ttf".to_owned());
    out.push("/usr/share/fonts/truetype/freefont/FreeSans.ttf".to_owned());
    out.push("/usr/share/fonts/TTF/DejaVuSans.ttf".to_owned());
    out.push("/usr/share/fonts/dejavu/DejaVuSans.ttf".to_owned());
    out.push("/Library/Fonts/Arial.ttf".to_owned());
    out.push("/System/Library/Fonts/Helvetica.ttc".to_owned());
    assert(crate::table::texts(out@) =~= fonts());
    out
}

/// The first of some places that has the file looked for, `n` of them looked at.
pub open spec fn first_found(found: Seq<bool>, n: int) -> Option<int>
    decreases n,
{
    if n <= 0 {
        None
    } else {
        match first_found(found, n - 1) {
            Some(i) => Some(i),
            None => if found[n - 1] {
                Some(n - 1)
            } else {
                None
            },
        }
    }
}

/// Choose the font an image is labelled with, or explain why there will be no image. `found` says of
/// each candidate whether it is there.
pub fn begin_images(found: &[bool]) -> (r: Result<usize, String>)
    requires
        found@.len() == fonts().len(),
    ensures
        match r {
            Ok(i) => first_found(found@, found@.len() as int) == Some(i as int) && i < fonts().len(),
            Err(why) => first_found(found@, found@.len() as int) is None && why@
                == "no text font found — looked for "@ + crate::table::joined(fonts(), 7)
                + ". Charts need one; the text reports do not, so `-f text` still works."@,
        },
{
    let mut i: usize = 0;
    while i < found.len()
        invariant
            i <= found@.len(),
            found@.len() == fonts().len(),
            first_found(found@, i as int) is None,
        decreases found@.len() - i,
    {
        if found[i] {
            proof {
                assert(first_found(found@, i + 1) == Some(i as int));
                lemma_found_stays(found@, i + 1, found@.len() as int);
            }
            return Ok(i);
        }
        i += 1;
    }
    let names = font_candidates();
    assert(names@.len() == crate::table::texts(names@).len());
    let mut why = "no text font found — looked for ".to_owned();
    why.append(crate::table::join(&names).as_str());
    why.append(". Charts need one; the text reports do not, so `-f text` still works.");
    Err(why)
}

proof fn lemma_found_stays(found: Seq<bool>, a: int, b: int)
    requires
        0 <= a <= b,
        first_found(found, a) is Some,
    ensures
        first_found(found, b) == first_found(found, a),
    decreases b,
{
    if a < b {
        lemma_found_stays(found, a, b - 1);
    }
}

// ---------------------------------------------------------------------------------------------
// the map
// ---------------------------------------------------------------------------------------------

/// The cells a map is asked for in, or why there is no map.
pub open spec fn cells_asked(atoms: int, floor: Single, text: Seq<char>) -> Result<
    (int, int),
    Seq<char>,
> {
    if atoms == 0 {
        Err("the book has no atoms"@)
    } else if !(floor.finite() && floor.above_zero()) {
        Err("--floor wants a positive number of dB"@)
    } else {
        size(text)
    }
}

/// The cells a map is asked for in.
pub fn map_cells(book: &Book, floor: Single, text: &str) -> (r: Result<(u32, u32), String>)
    ensures
        match (cells_asked(book.selections@.len() as int, floor, text@), r) {
            (Ok((w, h)), Ok(got)) => got.0 == w && got.1 == h,
            (Err(want), Err(why)) => why@ == want,
            _ => false,
        },
{
    if book.is_empty() {
        return Err("the book has no atoms".to_owned());
    }
    if !(floor.is_finite() && floor.is_above_zero()) {
        return Err("--floor wants a positive number of dB".to_owned());
    }
    parse_size(text)
}

/// The stretch of time a map is narrowed to, in samples: from where it is told to start, or its own
/// start, for as long as it is told to last, or to its own end.
pub open spec fn narrowed<N: Notation>(
    n: &N,
    sample_rate: Single,
    grid: MapGrid,
    start: Option<Double>,
    duration: Option<Double>,
) -> (Double, Double) {
    let rate = n.widen_of(sample_rate);
    let t0 = match start {
        Some(s) => n.times_of(s, rate),
        None => grid.t_edges@[0],
    };
    let t1 = match duration {
        Some(d) => n.plus_of(t0, n.times_of(d, rate)),
        None => grid.t_edges@[grid.columns()],
    };
    (t0, t1)
}

/// Narrow a map's time axis, in seconds at a book's sample rate.
pub fn narrow<N: Notation, M: MapMath>(
    n: &N,
    m: &M,
    sample_rate: Single,
    grid: MapGrid,
    start: Option<Double>,
    duration: Option<Double>,
    log_freq: bool,
) -> (r: Result<MapGrid, String>)
    requires
        n.repeatable(),
        m.repeatable(),
        grid.wf(),
    ensures
        ({
            let (t0, t1) = narrowed(n, sample_rate, grid, start, duration);
            match r {
                Ok(g) => if start is None && duration is None {
                    g == grid
                } else {
                    !t1.at_most(t0) && crate::tfmap::is_grid(
                        m,
                        g,
                        (t0, t1),
                        grid.columns() as usize,
                        crate::tfmap::axis_ends(
                            m,
                            (grid.f_edges@[0], grid.f_edges@[grid.rows()]),
                            log_freq,
                        ),
                        grid.rows() as usize,
                        log_freq,
                        sample_rate,
                    )
                },
                Err(why) => (start is Some || duration is Some) && t1.at_most(t0) && why@
                    == "--duration must be positive"@,
            }
        }),
{
    if start.is_none() && duration.is_none() {
        return Ok(grid);
    }
    let n_t: usize = grid.n_t();
    let n_f: usize = grid.n_f();
    assert(grid.t_edges.len() == grid.t_edges@.len());
    assert(grid.f_edges.len() == grid.f_edges@.len());
    let rate = n.widen(sample_rate);
    let t0 = match start {
        Some(s) => n.times(s, rate),
        None => grid.t_edges[0],
    };
    let t1 = match duration {
        Some(d) => n.plus(t0, n.times(d, rate)),
        None => grid.t_edges[n_t],
    };
    if t1.le(t0) {
        return Err("--duration must be positive".to_owned());
    }
    let f = (grid.f_edges[0], grid.f_edges[n_f]);
    Ok(
        if log_freq {
            MapGrid::log_freq(m, (t0, t1), n_t, f, n_f, sample_rate)
        } else {
            MapGrid::linear(m, (t0, t1), n_t, f, n_f, sample_rate)
        },
    )
}

/// The pixels an axis takes besides the cells along it.
pub const FURNITURE: u32 = 110;

/// The pixels of a map's picture: one for each cell, plus the axis furniture around them.
pub fn picture_size(n_t: u32, n_f: u32) -> (r: (u32, u32))
    requires
        n_t + FURNITURE <= u32::MAX,
        n_f + FURNITURE <= u32::MAX,
    ensures
        r.0 == n_t + FURNITURE,
        r.1 == n_f + FURNITURE,
{
    (n_t + FURNITURE, n_f + FURNITURE)
}

// ---------------------------------------------------------------------------------------------
// a run
// ---------------------------------------------------------------------------------------------

/// What `rmp` is asked to do.
#[derive(Clone, Copy, Debug, PartialEq, Eq, Structural)]
pub enum Task {
    WriteConfig,
    Analyse,
}

/// What `rmp` is asked to do, or what to tell whoever asked.
pub open spec fn task_for(
    write_config: bool,
    out: Option<Seq<char>>,
    book: Option<Seq<char>>,
    input: bool,
) -> Result<Task, Seq<char>> {
    if write_config {
        Ok(Task::WriteConfig)
    } else {
        match out {
            Some(out) => {
                let book = match book {
                    Some(b) => b,
                    None => "book.json"@,
                };
                Err(
                    "rmp no longer synthesises; render the book with `rmpsynth -b "@ + book + " -o "@
                        + out + "`"@,
                )
            },
            None => if input {
                Ok(Task::Analyse)
            } else {
                Err(
                    "give an input soundfile to analyse; to render a book, use `rmpsynth -b book -o out.wav`"@,
                )
            },
        }
    }
}

/// A text that may be missing.
pub open spec fn given(t: Option<&str>) -> Option<Seq<char>> {
    match t {
        Some(t) => Some(t@),
        None => None,
    }
}

/// What `rmp` is asked to do. A stale command line that asks for a synthesis is told where it went
/// rather than failing as an unknown flag.
pub fn task(write_config: bool, out: Option<&str>, book: Option<&str>, input: bool) -> (r: Result<
    Task,
    String,
>)
    ensures
        match (task_for(write_config, given(out), given(book), input), r) {
            (Ok(want), Ok(got)) => got == want,
            (Err(want), Err(why)) => why@ == want,
            _ => false,
        },
{
    if write_config {
        return Ok(Task::WriteConfig);
    }
    match out {
        Some(out) => {
            let mut why = "rmp no longer synthesises; render the book with `rmpsynth -b ".to_owned();
            why.append(
                match book {
                    Some(b) => b,
                    None => "book.json",
                },
            );
            why.append(" -o ");
            why.append(out);
            why.append("`");
            Err(why)
        },
        None => {
            if input {
                Ok(Task::Analyse)
            } else {
                Err(
                    "give an input soundfile to analyse; to render a book, use `rmpsynth -b book -o out.wav`".to_owned(),
                )
            }
        },
    }
}

/// Which of a run's results were given somewhere to go.
#[derive(Clone, Copy, Debug, PartialEq, Eq, Structural)]
pub struct Outputs {
    pub book: bool,
    pub residual: bool,
    pub residual_book: bool,
}

impl Outputs {
    /// Refuse a run that would write nothing.
    pub fn check(&self) -> (r: Result<(), String>)
        ensures
            match r {
                Ok(_) => self.book || self.residual || self.residual_book,
                Err(why) => !self.book && !self.residual && !self.residual_book && why@
                    == "nothing to write: give --book for the atoms, --residual for what is left over, or --residual-book for its ERB analysis"@,
            },
    {
        if !self.book && !self.residual && !self.residual_book {
            Err(
                "nothing to write: give --book for the atoms, --residual for what is left over, or --residual-book for its ERB analysis".to_owned(),
            )
        } else {
            Ok(())
        }
    }
}

/// Lay the flags over the settings: defaults, then the settings file, then the command line, and only
/// for the fields actually given. Somewhere to put the residual analysis is a request for it, unless
/// the flags say otherwise.
pub fn merge(
    settings: &mut ResidualSettings,
    toggle: Option<bool>,
    update_ms: Option<Double>,
    residual_book: bool,
)
    ensures
        *final(settings) == (ResidualSettings {
            enabled: match toggle {
                Some(enabled) => enabled,
                None => residual_book || old(settings).enabled,
            },
            update_ms: match update_ms {
                Some(ms) => ms,
                None => old(settings).update_ms,
            },
            ..*old(settings)
        }),
{
    if let Some(enabled) = toggle {
        settings.enabled = enabled;
    }
    if let Some(ms) = update_ms {
        settings.update_ms = ms;
    }
    if residual_book && toggle.is_none() {
        settings.enabled = true;
    }
}

/// What to say of an input with nothing in it.
pub fn silence(excerpt: usize, whole: usize) -> (r: String)
    ensures
        r@ == if excerpt == whole {
            "input is silent"@
        } else {
            "the selected excerpt is silent"@
        },
{
    if excerpt == whole {
        "input is silent".to_owned()
    } else {
        "the selected excerpt is silent".to_owned()
    }
}

/// What becomes of the residual analysis.
#[derive(Clone, Copy, Debug, PartialEq, Eq, Structural)]
pub enum ResidualRoute {
    /// Not asked for.
    Off,
    /// Asked for with nowhere to put it: skipped, with a warning.
    Nowhere,
    /// Written to its own file. The power matrix is far larger than the atom list, and keeping both
    /// copies would double a file for nothing.
    Apart,
    /// Embedded in the book.
    Embedded,
}

impl Outputs {
    /// What becomes of the residual analysis.
    pub fn route(&self, enabled: bool) -> (r: ResidualRoute)
        ensures
            r == if !enabled {
                ResidualRoute::Off
            } else if self.residual_book {
                ResidualRoute::Apart
            } else if self.book {
                ResidualRoute::Embedded
            } else {
                ResidualRoute::Nowhere
            },
    {
        if !enabled {
            ResidualRoute::Off
        } else if self.residual_book {
            ResidualRoute::Apart
        } else if self.book {
            ResidualRoute::Embedded
        } else {
            ResidualRoute::Nowhere
        }
    }
}

impl ResidualRoute {
    /// Whether the analysis is run at all.
    pub fn runs(self) -> (r: bool)
        ensures
            r == (self is Apart || self is Embedded),
    {
        match self {
            ResidualRoute::Apart => true,
            ResidualRoute::Embedded => true,
            _ => false,
        }
    }

    /// What a run says of an analysis it has nowhere to put.
    pub fn warning(self) -> (r: Option<&'static str>)
        ensures
            match r {
                Some(text) => self is Nowhere && text@
                    == "  warning: residual analysis is enabled but neither --book nor --residual-book was given, so there is nowhere to put it; skipping"@,
                None => !(self is Nowhere),
            },
    {
        match self {
            ResidualRoute::Nowhere => Some(
                "  warning: residual analysis is enabled but neither --book nor --residual-book was given, so there is nowhere to put it; skipping",
            ),
            _ => None,
        }
    }
}

/// Where the settings a dictionary was built from came from.
pub fn settings_note(path: Option<&str>) -> (r: String)
    ensures
        r@ == match path {
            Some(p) => "dictionary from "@ + p@,
            None =>
                "dictionary from the built-in defaults — pass -c to match the run that wrote this book"@,
        },
{
    match path {
        Some(p) => {
            let mut note = "dictionary from ".to_owned();
            note.append(p);
            note
        },
        None =>
            "dictionary from the built-in defaults — pass -c to match the run that wrote this book".to_owned(),
    }
}

// ---------------------------------------------------------------------------------------------
// derived documents
// ---------------------------------------------------------------------------------------------

/// A name without a suffix it ends in.
pub open spec fn without(s: Seq<char>, suffix: Seq<char>) -> Seq<char> {
    if ends(s, suffix) {
        s.take(s.len() - suffix.len())
    } else {
        s
    }
}

/// A book's name without its compression and format suffixes.
pub open spec fn stem(name: Seq<char>) -> Seq<char> {
    without(without(without(without(name, ".gz"@), ".gzip"@), ".json"@), ".toml"@)
}

/// How much of a path comes before its parts: a root, or a leading dot that stands for where one is.
pub open spec fn path_lead(path: Seq<char>) -> int {
    if path.len() > 0 && (path[0] == '/' || (path[0] == '.' && (path.len() == 1 || path[1] == '/'))) {
        1
    } else {
        0
    }
}

/// Where the last of the parts in `[lead, n)` starts: one past the last separator there.
pub open spec fn part_start(path: Seq<char>, lead: int, n: int) -> int
    decreases n - lead,
{
    if n <= lead || path[n - 1] == '/' {
        n
    } else {
        part_start(path, lead, n - 1)
    }
}

/// Where a part and the separator before it, if there is one, start.
pub open spec fn cut_before(lead: int, start: int) -> int {
    if start > lead {
        start - 1
    } else {
        start
    }
}

/// A part that names nothing: between two separators, or a dot.
pub open spec fn idle(part: Seq<char>) -> bool {
    part.len() == 0 || (part.len() == 1 && part[0] == '.')
}

/// A part that leads a level up.
pub open spec fn goes_up(part: Seq<char>) -> bool {
    part.len() == 2 && part[0] == '.' && part[1] == '.'
}

/// The end of the last part in `[lead, n)` that names something, or `lead`.
pub open spec fn parts_end(path: Seq<char>, lead: int, n: int) -> int
    decreases n - lead,
{
    if n <= lead {
        n
    } else {
        let start = part_start(path, lead, n);
        if lead <= start <= n && idle(path.subrange(start, n)) {
            if cut_before(lead, start) < n {
                parts_end(path, lead, cut_before(lead, start))
            } else {
                n
            }
        } else {
            n
        }
    }
}

/// A path's last part: where it starts and where it ends.
pub open spec fn last_part(path: Seq<char>) -> (int, int) {
    let lead = path_lead(path);
    let end = parts_end(path, lead, path.len() as int);
    (part_start(path, lead, end), end)
}

/// The name of what a path leads to. A path that ends where one is, a level up or at the root has none.
pub open spec fn file_name(path: Seq<char>) -> Option<Seq<char>> {
    let (start, end) = last_part(path);
    let name = path.subrange(start, end);
    if end <= path_lead(path) || goes_up(name) {
        None
    } else {
        Some(name)
    }
}

/// The path that what a path leads to is in.
pub open spec fn parent(path: Seq<char>) -> Seq<char> {
    let lead = path_lead(path);
    path.take(parts_end(path, lead, cut_before(lead, last_part(path).0)))
}

/// A path with a name at its end.
pub open spec fn joined(dir: Seq<char>, name: Seq<char>) -> Seq<char> {
    if dir.len() == 0 || dir.last() == '/' {
        dir + name
    } else {
        dir.push('/') + name
    }
}

/// Where a document derived from a book goes.
pub open spec fn derived(book: Seq<char>) -> Seq<char> {
    match file_name(book) {
        Some(name) => joined(parent(book), stem(name) + ".partials.json.gz"@),
        None => joined(book, "book.partials.json.gz"@),
    }
}

proof fn lemma_part_start(path: Seq<char>, lead: int, n: int)
    requires
        0 <= lead <= n <= path.len(),
    ensures
        lead <= part_start(path, lead, n) <= n,
        forall|i: int| part_start(path, lead, n) <= i < n ==> #[trigger] path[i] != '/',
        part_start(path, lead, n) > lead ==> path[part_start(path, lead, n) - 1] == '/',
    decreases n - lead,
{
    if n > lead && path[n - 1] != '/' {
        lemma_part_start(path, lead, n - 1);
    }
}

/// Ending where the last named part ends, a path ends there still.
proof fn lemma_parts_end(path: Seq<char>, lead: int, n: int)
    requires
        0 <= lead <= n <= path.len(),
    ensures
        lead <= parts_end(path, lead, n) <= n,
        parts_end(path, lead, parts_end(path, lead, n)) == parts_end(path, lead, n),
    decreases n - lead,
{
    lemma_part_start(path, lead, n);
    if n > lead {
        let start = part_start(path, lead, n);
        if idle(path.subrange(start, n)) {
            lemma_parts_end(path, lead, cut_before(lead, start));
        }
    }
}

/// What is past `n` is not looked at.
proof fn lemma_same_parts(a: Seq<char>, b: Seq<char>, lead: int, n: int)
    requires
        0 <= lead <= n <= a.len(),
        n <= b.len(),
        forall|i: int| 0 <= i < n ==> #[trigger] a[i] == b[i],
    ensures
        part_start(a, lead, n) == part_start(b, lead, n),
        parts_end(a, lead, n) == parts_end(b, lead, n),
    decreases n - lead,
{
    if n > lead {
        assert(a[n - 1] == b[n - 1]);
        lemma_same_parts(a, b, lead, n - 1);
        lemma_part_start(a, lead, n);
        let start = part_start(a, lead, n);
        assert(part_start(b, lead, n) == start);
        assert(a.subrange(start, n) =~= b.subrange(start, n));
        let cut = cut_before(lead, start);
        if cut < n {
            lemma_same_parts(a, b, lead, cut);
        }
    }
}

/// A stem is the beginning of its name.
proof fn lemma_stem(name: Seq<char>)
    ensures
        stem(name).len() <= name.len(),
        stem(name) == name.take(stem(name).len() as int),
        ends(name, ".gz"@) ==> stem(name).len() < name.len(),
{
    reveal_strlit(".gz");
    let a = without(name, ".gz"@);
    let b = without(a, ".gzip"@);
    let c = without(b, ".json"@);
    let d = without(c, ".toml"@);
    assert(a =~= name.take(a.len() as int));
    assert(b =~= name.take(b.len() as int));
    assert(c =~= name.take(c.len() as int));
    assert(d =~= name.take(d.len() as int));
}

/// Where a path leads from: it is the path's beginning, and it ends in a part that names something or
/// where the parts begin.
proof fn lemma_parent(path: Seq<char>)
    ensures
        path_lead(path) <= parent(path).len() <= path.len(),
        forall|i: int| 0 <= i < parent(path).len() ==> #[trigger] parent(path)[i] == path[i],
        parts_end(path, path_lead(path), parent(path).len() as int) == parent(path).len(),
        parent(path).len() > path_lead(path) ==> parent(path).last() != '/',
{
    let lead = path_lead(path);
    lemma_parts_end(path, lead, path.len() as int);
    let (start, end) = last_part(path);
    lemma_part_start(path, lead, end);
    let cut = cut_before(lead, start);
    lemma_parts_end(path, lead, cut);
    let d = parent(path).len() as int;
    assert(d == parts_end(path, lead, cut));
    if d > lead && path[d - 1] == '/' {
        lemma_part_start(path, lead, d);
        assert(part_start(path, lead, d) == d);
        assert(idle(path.subrange(d, d)));
        lemma_parts_end(path, lead, d - 1);
    }
}

/// A name at the end of a path is its last part.
proof fn lemma_last_is_the_name(out: Seq<char>, lead: int, at: int)
    requires
        0 <= lead <= at,
        at + 2 < out.len(),
        at > lead ==> out[at - 1] == '/',
        forall|i: int| at <= i < out.len() ==> #[trigger] out[i] != '/',
    ensures
        part_start(out, lead, out.len() as int) == at,
        parts_end(out, lead, out.len() as int) == out.len(),
{
    let n = out.len() as int;
    lemma_part_start(out, lead, n);
    let found = part_start(out, lead, n);
    if found > at {
        assert(out[found - 1] != '/');
    }
    if found < at {
        assert(out[at - 1] == '/');
    }
    assert(!idle(out.subrange(found, n)));
}

/// A name put at the end of where a path leads is the last part of what that makes.
proof fn lemma_joined(path: Seq<char>, name: Seq<char>)
    requires
        file_name(path) is Some,
        name.len() > 2,
        forall|i: int| 0 <= i < name.len() ==> #[trigger] name[i] != '/',
    ensures
        parent(joined(parent(path), name)) == parent(path),
        file_name(joined(parent(path), name)) == Some(name),
{
    let lead = path_lead(path);
    let dir = parent(path);
    let d = dir.len() as int;
    lemma_parent(path);
    lemma_joined_lead(path, name);
    let out = joined(dir, name);
    let at = out.len() - name.len();
    assert forall|i: int| 0 <= i < d implies #[trigger] out[i] == path[i] by {
        assert(out[i] == dir[i]);
    }
    assert forall|i: int| at <= i < out.len() implies #[trigger] out[i] != '/' by {
        assert(out[i] == name[i - at]);
    }
    assert(at > d ==> out[d] == '/' && at == d + 1);
    assert(at > lead ==> out[at - 1] == '/');
    lemma_last_is_the_name(out, lead, at);
    assert(out.subrange(at, out.len() as int) =~= name);
    assert(cut_before(lead, at) == d);
    lemma_same_parts(out, path, lead, d);
    assert(parent(out) =~= dir);
}

/// A path and a name put where it leads begin alike.
proof fn lemma_joined_lead(path: Seq<char>, name: Seq<char>)
    requires
        file_name(path) is Some,
        name.len() > 2,
        forall|i: int| 0 <= i < name.len() ==> #[trigger] name[i] != '/',
    ensures
        path_lead(joined(parent(path), name)) == path_lead(path),
        parent(path).len() >= path_lead(path),
{
    let lead = path_lead(path);
    lemma_parts_end(path, lead, path.len() as int);
    let (start, end) = last_part(path);
    lemma_part_start(path, lead, end);
    lemma_parts_end(path, lead, cut_before(lead, start));
    let dir = parent(path);
    let out = joined(dir, name);
    if dir.len() == 0 {
        assert(out =~= name);
        assert(name[0] != '/' && name[1] != '/');
    } else {
        assert(out.len() >= 2);
        assert(out[0] == dir[0] && dir[0] == path[0]);
        if dir.len() >= 2 {
            assert(out[1] == dir[1] && dir[1] == path[1]);
        } else if dir[0] == '.' {
            assert(out[1] == '/');
            if lead == 0 {
                assert(dir[0] == path[0]);
                assert(parts_end(path, 0, 1) == 1);
                assert(parts_end(path, 0, 0) == 0);
                assert(part_start(path, 0, 0) == 0);
                assert(part_start(path, 0, 1) == 0);
                assert(idle(path.subrange(0, 1)));
            }
        }
    }
}

/// A derived document never goes where its book is, even for a book that is named like one: it is in
/// the same place, under another name, with its own suffix.
pub proof fn law_a_book_is_never_the_default_target(book: Seq<char>)
    requires
        file_name(book) is Some,
    ensures
        parent(derived(book)) == parent(book),
        file_name(derived(book)) == Some(stem(file_name(book)->0) + ".partials.json.gz"@),
        file_name(derived(book)) != file_name(book),
        derived(book) != book,
        ends(derived(book), ".partials.json.gz"@),
{
    reveal_strlit(".partials.json.gz");
    reveal_strlit(".gz");
    let suffix = ".partials.json.gz"@;
    let lead = path_lead(book);
    lemma_parts_end(book, lead, book.len() as int);
    let (start, end) = last_part(book);
    lemma_part_start(book, lead, end);
    let old = file_name(book)->0;
    lemma_stem(old);
    let name = stem(old) + suffix;
    assert forall|i: int| 0 <= i < name.len() implies #[trigger] name[i] != '/' by {
        if i < stem(old).len() {
            assert(name[i] == old.take(stem(old).len() as int)[i]);
            assert(old[i] == book[start + i]);
        } else {
            assert(name[i] == suffix[i - stem(old).len()]);
        }
    }
    lemma_joined(book, name);
    let out = derived(book);
    if name == old {
        reveal_strlit(".gzip");
        reveal_strlit(".json");
        reveal_strlit(".toml");
        let n = old.len() as int;
        assert forall|i: int| 0 <= i < 17 implies #[trigger] old[n - 17 + i] == suffix[i] by {
            assert(name[n - 17 + i] == suffix[i]);
        }
        assert(old.skip(n - 3) =~= ".gz"@);
        let a = old.take(n - 3);
        assert(without(old, ".gz"@) == a);
        assert(a.skip(n - 8)[4] == 'n');
        assert(a.last() == 'n');
        assert(a.skip(a.len() - 5).last() == a.last());
        assert(".gzip"@.last() == 'p');
        assert(without(a, ".gzip"@) == a);
        assert(a.skip(n - 8) =~= ".json"@);
        let c = a.take(n - 8);
        assert(without(a, ".json"@) == c);
        assert(c.last() == 's');
        assert(c.skip(c.len() - 5).last() == c.last());
        assert(".toml"@.last() == 'l');
        assert(without(c, ".toml"@) == c);
    }
    assert(out.skip(out.len() - suffix.len()) =~= suffix);
}

fn strip<'a>(cs: &'a [char], suffix: &str) -> (r: &'a [char])
    ensures
        r@ == without(cs@, suffix@),
{
    match before_suffix(cs, suffix) {
        Some(rest) => rest,
        None => cs,
    }
}

fn start_of_part(cs: &[char], lead: usize, n: usize) -> (r: usize)
    requires
        lead <= n <= cs@.len(),
    ensures
        r == part_start(cs@, lead as int, n as int),
        lead <= r <= n,
{
    let mut at: usize = n;
    while at > lead && cs[at - 1] != '/'
        invariant
            lead <= at <= n <= cs@.len(),
            part_start(cs@, lead as int, n as int) == part_start(cs@, lead as int, at as int),
        decreases at,
    {
        at -= 1;
    }
    at
}

fn end_of_parts(cs: &[char], lead: usize, n: usize) -> (r: usize)
    requires
        lead <= n <= cs@.len(),
    ensures
        r == parts_end(cs@, lead as int, n as int),
        lead <= r <= n,
{
    let mut end: usize = n;
    while end > lead
        invariant
            lead <= end <= n <= cs@.len(),
            parts_end(cs@, lead as int, n as int) == parts_end(cs@, lead as int, end as int),
        ensures
            end == parts_end(cs@, lead as int, n as int),
        decreases end,
    {
        let start: usize = start_of_part(cs, lead, end);
        let named = start < end && !(end - start == 1 && cs[start] == '.');
        if named {
            break;
        }
        end = if start > lead {
            start - 1
        } else {
            start
        };
    }
    end
}

/// Where a path's name starts and ends, and where the path it is in ends. Nothing is between
/// the first two where there is no name.
fn parts_of(cs: &[char]) -> (r: (usize, usize, usize))
    ensures
        r.0 <= r.1 <= cs@.len(),
        r.2 <= cs@.len(),
        match file_name(cs@) {
            Some(name) => r.0 < r.1 && name == cs@.subrange(r.0 as int, r.1 as int) && parent(cs@)
                == cs@.take(r.2 as int),
            None => r.0 == r.1,
        },
{
    let n: usize = cs.len();
    let here = n > 0 && cs[0] == '.' && (n == 1 || cs[1] == '/');
    let lead: usize = if n > 0 && (cs[0] == '/' || here) {
        1
    } else {
        0
    };
    assert(lead == path_lead(cs@));
    let end: usize = end_of_parts(cs, lead, n);
    let start: usize = start_of_part(cs, lead, end);
    assert(last_part(cs@) == (start as int, end as int));
    let up = end - start == 2 && cs[start] == '.' && cs[start + 1] == '.';
    if end <= lead || up {
        return (n, n, n);
    }
    proof {
        lemma_parts_end(cs@, lead as int, n as int);
        assert(start < end) by {
            if start == end {
                assert(idle(cs@.subrange(end as int, end as int)));
                lemma_part_start(cs@, lead as int, end as int);
                lemma_parts_end(cs@, lead as int, end - 1);
            }
        }
    }
    let cut: usize = if start > lead {
        start - 1
    } else {
        start
    };
    (start, end, end_of_parts(cs, lead, cut))
}

/// A path with a name at its end.
fn join(dir: &[char], name: &str) -> (r: String)
    ensures
        r@ == joined(dir@, name@),
{
    let mut out = text_of(dir);
    if dir.len() > 0 && dir[dir.len() - 1] != '/' {
        out.push('/');
    }
    out.append(name);
    out
}

/// Where a document derived from a book goes: `dir/name.json.gz` gives `dir/name.partials.json.gz`,
/// the book's name without its format and compression suffixes, then the document's own. A path that
/// names nothing stands for a book of no particular name in it.
pub fn default_output(book: &str) -> (r: String)
    ensures
        r@ == derived(book@),
{
    let cs = chars_of(book);
    let (start, end, dir_end) = parts_of(cs.as_slice());
    if start < end {
        let dir = vstd::slice::slice_subrange(cs.as_slice(), 0, dir_end);
        assert(dir@ =~= parent(book@));
        let name = vstd::slice::slice_subrange(cs.as_slice(), start, end);
        assert(name@ == file_name(book@)->0);
        let s = strip(strip(strip(strip(name, ".gz"), ".gzip"), ".json"), ".toml");
        let mut own = text_of(s);
        own.append(".partials.json.gz");
        join(dir, own.as_str())
    } else {
        join(cs.as_slice(), "book.partials.json.gz")
    }
}

/// Refuse to write a derived document over the book it derives from. `same` says whether the two
/// paths are one.
pub fn refuse_overwrite(same: bool, out: &str) -> (r: Result<(), String>)
    ensures
        match r {
            Ok(_) => !same,
            Err(why) => same && why@ == "refusing to overwrite the MP book "@ + out@,
        },
{
    if same {
        let mut why = "refusing to overwrite the MP book ".to_owned();
        why.append(out);
        Err(why)
    } else {
        Ok(())
    }
}

} // verus!
