use vstd::prelude::*;

verus! {

/// The external encoder a run feeds.
#[derive(Clone, Copy, Debug, PartialEq, Eq, Structural)]
pub enum Encoder {
    SvtAv1,
    Avm,
}

/// What `str::to_lowercase` gives for a string.
pub uninterp spec fn lower_of(s: Seq<char>) -> Seq<char>;

/// Relies on `str::to_lowercase`: the result depends on the characters alone.
#[verifier::external_body]
fn lowercase(s: &str) -> (r: String)
    ensures
        r@ == lower_of(s@),
{
    s.to_lowercase()
}

/// The encoder a lower-case name selects.
pub open spec fn encoder_named(s: Seq<char>) -> Option<Encoder> {
    if s == "svt-av1"@ {
        Some(Encoder::SvtAv1)
    } else if s == "avm"@ {
        Some(Encoder::Avm)
    } else {
        None
    }
}

fn str_eq(a: &str, b: &str) -> (r: bool)
    ensures
        r == (a@ == b@),
{
    let n = a.unicode_len();
    if n != b.unicode_len() {
        return false;
    }
    let mut i: usize = 0;
    while i < n
        invariant
            n == a@.len(),
            n == b@.len(),
            i <= n,
            forall|k: int| 0 <= k < i ==> a@[k] == b@[k],
        decreases n - i,
    {
        if a.get_char(i) != b.get_char(i) {
            return false;
        }
        i = i + 1;
    }
    assert(a@ =~= b@);
    true
}

impl Encoder {
    /// The encoder an already lower-cased name selects.
    pub fn from_lowercase(s: &str) -> (r: Option<Self>)
        ensures
            r == encoder_named(s@),
    {
        if str_eq(s, "svt-av1") {
            Some(Encoder::SvtAv1)
        } else if str_eq(s, "avm") {
            Some(Encoder::Avm)
        } else {
            None
        }
    }

    /// The encoder a name selects, in any letter case.
    pub fn from_str(s: &str) -> (r: Option<Self>)
        ensures
            r == encoder_named(lower_of(s@)),
    {
        let l = lowercase(s);
        Self::from_lowercase(l.as_str())
    }
}

/// The name `avmenc` takes for a colour-primaries code.
pub fn color_primaries_str(v: i32) -> (r: &'static str)
    ensures
        r@ == (if v == 1 {
            "bt709"@
        } else if v == 4 {
            "bt470m"@
        } else if v == 5 {
            "bt470bg"@
        } else if v == 6 {
            "bt601"@
        } else if v == 7 {
            "smpte240"@
        } else if v == 8 {
            "film"@
        } else if v == 9 {
            "bt2020"@
        } else if v == 10 {
            "xyz"@
        } else if v == 11 {
            "smpte431"@
        } else if v == 12 {
            "smpte432"@
        } else if v == 22 {
            "ebu3213"@
        } else {
            "unspecified"@
        }),
{
    match v {
        1 => "bt709",
        4 => "bt470m",
        5 => "bt470bg",
        6 => "bt601",
        7 => "smpte240",
        8 => "film",
        9 => "bt2020",
        10 => "xyz",
        11 => "smpte431",
        12 => "smpte432",
        22 => "ebu3213",
        _ => "unspecified",
    }
}

/// The name `avmenc` takes for a transfer-characteristics code.
pub fn transfer_char_str(v: i32) -> (r: &'static str)
    ensures
        r@ == (if v == 1 {
            "bt709"@
        } else if v == 4 {
            "bt470m"@
        } else if v == 5 {
            "bt470bg"@
        } else if v == 6 {
            "bt601"@
        } else if v == 7 {
            "smpte240"@
        } else if v == 8 {
            "lin"@
        } else if v == 9 {
            "log100"@
        } else if v == 10 {
            "log100sq10"@
        } else if v == 11 {
            "iec61966"@
        } else if v == 12 {
            "bt1361"@
        } else if v == 13 {
            "srgb"@
        } else if v == 14 {
            "bt2020-10bit"@
        } else if v == 15 {
            "bt2020-12bit"@
        } else if v == 16 {
            "smpte2084"@
        } else if v == 17 {
            "smpte428"@
        } else if v == 18 {
            "hlg"@
        } else {
            "unspecified"@
        }),
{
    match v {
        1 => "bt709",
        4 => "bt470m",
        5 => "bt470bg",
        6 => "bt601",
        7 => "smpte240",
        8 => "lin",
        9 => "log100",
        10 => "log100sq10",
        11 => "iec61966",
        12 => "bt1361",
        13 => "srgb",
        14 => "bt2020-10bit",
        15 => "bt2020-12bit",
        16 => "smpte2084",
        17 => "smpte428",
        18 => "hlg",
        _ => "unspecified",
    }
}

/// The name `avmenc` takes for a matrix-coefficients code.
pub fn matrix_coeff_str(v: i32) -> (r: &'static str)
    ensures
        r@ == (if v == 0 {
            "identity"@
        } else if v == 1 {
            "bt709"@
        } else if v == 4 {
            "fcc73"@
        } else if v == 5 {
            "bt470bg"@
        } else if v == 6 {
            "bt601"@
        } else if v == 7 {
            "smpte240"@
        } else if v == 8 {
            "ycgco"@
        } else if v == 9 {
            "bt2020ncl"@
        } else if v == 10 {
            "bt2020cl"@
        } else if v == 11 {
            "smpte2085"@
        } else if v == 12 {
            "chromncl"@
        } else if v == 13 {
            "chromcl"@
        } else if v == 14 {
            "ictcp"@
        } else {
            "unspecified"@
        }),
{
    match v {
        0 => "identity",
        1 => "bt709",
        4 => "fcc73",
        5 => "bt470bg",
        6 => "bt601",
        7 => "smpte240",
        8 => "ycgco",
        9 => "bt2020ncl",
        10 => "bt2020cl",
        11 => "smpte2085",
        12 => "chromncl",
        13 => "chromcl",
        14 => "ictcp",
        _ => "unspecified",
    }
}

/// The name `avmenc` takes for a chroma-sample-position code.
pub fn chroma_pos_str(v: i32) -> (r: &'static str)
    ensures
        r@ == (if v == 1 {
            "left"@
        } else if v == 2 {
            "center"@
        } else if v == 3 {
            "topleft"@
        } else if v == 4 {
            "top"@
        } else if v == 5 {
            "bottomleft"@
        } else if v == 6 {
            "bottom"@
        } else {
            "unspecified"@
        }),
{
    match v {
        1 => "left",
        2 => "center",
        3 => "topleft",
        4 => "top",
        5 => "bottomleft",
        6 => "bottom",
        _ => "unspecified",
    }
}

} // verus!
