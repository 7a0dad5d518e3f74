//! Particle shapes and container geometries of the Monte Carlo packing demo, and how their
//! names are read.
use vstd::prelude::*;

verus! {

/// A particle shape.
#[derive(Clone, Copy, PartialEq, Eq, Structural, Debug)]
pub enum ShapeKind {
    Disk,
    Rect,
    Tri,
    Square,
    Hex,
    Oct,
}

/// The container of the particles.
#[derive(Clone, Copy, PartialEq, Eq, Structural, Debug)]
pub enum GeometryKind {
    Box,
    Circle,
}

/// `str::to_lowercase`'s result, as a function of the text: the Unicode lowercase mapping.
pub uninterp spec fn lowercase(s: Seq<char>) -> Seq<char>;

/// `str::to_lowercase`. std documents that it returns the lowercase equivalent of the text
/// by the Unicode lowercase mapping; the contract names that result and states nothing more.
#[verifier::external_body]
fn to_lowercase(s: &str) -> (r: String)
    ensures
        r@ == lowercase(s@),
{
    s.to_lowercase()
}

/// Whether two texts hold the same characters.
pub(crate) fn same_text(s: &str, word: &str) -> (r: bool)
    ensures
        r == (s@ == word@),
{
    let n = s.unicode_len();
    if n != word.unicode_len() {
        return false;
    }
    let mut i: usize = 0;
    while i < n
        invariant
            n == s@.len(),
            n == word@.len(),
            i <= n,
            forall|j: int| 0 <= j < i ==> s@[j] == word@[j],
        decreases n - i,
    {
        if s.get_char(i) != word.get_char(i) {
            return false;
        }
        i += 1;
    }
    proof {
        assert(s@ =~= word@);
    }
    true
}

/// The shape a lowercase name stands for; unknown names stand for disks.
pub open spec fn shape_named(word: Seq<char>) -> ShapeKind {
    if word == "disk"@ {
        ShapeKind::Disk
    } else if word == "rect"@ {
        ShapeKind::Rect
    } else if word == "tri"@ || word == "triangle"@ {
        ShapeKind::Tri
    } else if word == "square"@ {
        ShapeKind::Square
    } else if word == "hex"@ || word == "hexagon"@ {
        ShapeKind::Hex
    } else if word == "oct"@ || word == "octagon"@ {
        ShapeKind::Oct
    } else {
        ShapeKind::Disk
    }
}

/// The short name of a shape.
pub open spec fn shape_name(kind: ShapeKind) -> Seq<char> {
    match kind {
        ShapeKind::Disk => "disk"@,
        ShapeKind::Rect => "rect"@,
        ShapeKind::Tri => "tri"@,
        ShapeKind::Square => "square"@,
        ShapeKind::Hex => "hex"@,
        ShapeKind::Oct => "oct"@,
    }
}

impl ShapeKind {
    /// The shape named by an already lowercase word.
    pub fn from_lowercase(word: &str) -> (r: ShapeKind)
        ensures
            r == shape_named(word@),
    {
        if same_text(word, "disk") {
            ShapeKind::Disk
        } else if same_text(word, "rect") {
            ShapeKind::Rect
        } else if same_text(word, "tri") || same_text(word, "triangle") {
            ShapeKind::Tri
        } else if same_text(word, "square") {
            ShapeKind::Square
        } else if same_text(word, "hex") || same_text(word, "hexagon") {
            ShapeKind::Hex
        } else if same_text(word, "oct") || same_text(word, "octagon") {
            ShapeKind::Oct
        } else {
            ShapeKind::Disk
        }
    }

    /// The shape named by `s`, in any case.
    pub fn from_str(s: &str) -> (r: ShapeKind)
        ensures
            r == shape_named(lowercase(s@)),
    {
        let lower = to_lowercase(s);
        ShapeKind::from_lowercase(lower.as_str())
    }

    pub fn as_str(&self) -> (r: &'static str)
        ensures
            r@ == shape_name(*self),
    {
        match self {
            ShapeKind::Disk => "disk",
            ShapeKind::Rect => "rect",
            ShapeKind::Tri => "tri",
            ShapeKind::Square => "square",
            ShapeKind::Hex => "hex",
            ShapeKind::Oct => "oct",
        }
    }

    /// Number of sides of a polygonal shape; disks and rectangles have none here.
    pub fn polygon_sides(&self) -> (r: Option<usize>)
        ensures
            r == match *self {
                ShapeKind::Tri => Some(3usize),
                ShapeKind::Square => Some(4usize),
                ShapeKind::Hex => Some(6usize),
                ShapeKind::Oct => Some(8usize),
                _ => None,
            },
    {
        match self {
            ShapeKind::Tri => Some(3),
            ShapeKind::Square => Some(4),
            ShapeKind::Hex => Some(6),
            ShapeKind::Oct => Some(8),
            _ => None,
        }
    }

    /// Place of the shape in the shape table: disk 0, rect 1, tri 2, square 3, hex 4, oct 5.
    pub fn slot(&self) -> (r: usize)
        ensures
            r == match *self {
                ShapeKind::Disk => 0usize,
                ShapeKind::Rect => 1usize,
                ShapeKind::Tri => 2usize,
                ShapeKind::Square => 3usize,
                ShapeKind::Hex => 4usize,
                ShapeKind::Oct => 5usize,
            },
    {
        match self {
            ShapeKind::Disk => 0,
            ShapeKind::Rect => 1,
            ShapeKind::Tri => 2,
            ShapeKind::Square => 3,
            ShapeKind::Hex => 4,
            ShapeKind::Oct => 5,
        }
    }
}

proof fn lemma_words_differ(a: Seq<char>, b: Seq<char>)
    requires
        a.len() != b.len() || (a.len() > 0 && b.len() > 0 && a[0] != b[0]),
    ensures
        a != b,
{
}

/// A shape's short name reads back as that shape.
pub proof fn lemma_shape_name_roundtrip(kind: ShapeKind)
    ensures
        shape_named(shape_name(kind)) == kind,
{
    reveal_strlit("disk");
    reveal_strlit("rect");
    reveal_strlit("tri");
    reveal_strlit("triangle");
    reveal_strlit("square");
    reveal_strlit("hex");
    reveal_strlit("hexagon");
    reveal_strlit("oct");
    reveal_strlit("octagon");
    let earlier: Seq<Seq<char>> = seq![
        "disk"@,
        "rect"@,
        "tri"@,
        "triangle"@,
        "square"@,
        "hex"@,
        "hexagon"@,
    ];
    let name = shape_name(kind);
    match kind {
        ShapeKind::Disk => {},
        ShapeKind::Rect => lemma_words_differ(name, earlier[0]),
        ShapeKind::Tri => {
            lemma_words_differ(name, earlier[0]);
            lemma_words_differ(name, earlier[1]);
        },
        ShapeKind::Square => {
            lemma_words_differ(name, earlier[0]);
            lemma_words_differ(name, earlier[1]);
            lemma_words_differ(name, earlier[2]);
            lemma_words_differ(name, earlier[3]);
        },
        ShapeKind::Hex => {
            lemma_words_differ(name, earlier[0]);
            lemma_words_differ(name, earlier[1]);
            lemma_words_differ(name, earlier[2]);
            lemma_words_differ(name, earlier[3]);
            lemma_words_differ(name, earlier[4]);
        },
        ShapeKind::Oct => {
            lemma_words_differ(name, earlier[0]);
            lemma_words_differ(name, earlier[1]);
            lemma_words_differ(name, earlier[2]);
            lemma_words_differ(name, earlier[3]);
            lemma_words_differ(name, earlier[4]);
            lemma_words_differ(name, earlier[5]);
            lemma_words_differ(name, earlier[6]);
        },
    }
}

/// The geometry a lowercase name stands for: "circle" is the circle, anything else the box.
pub open spec fn geometry_named(word: Seq<char>) -> GeometryKind {
    if word == "circle"@ {
        GeometryKind::Circle
    } else {
        GeometryKind::Box
    }
}

impl GeometryKind {
    /// The geometry named by an already lowercase word.
    pub fn from_lowercase(word: &str) -> (r: GeometryKind)
        ensures
            r == geometry_named(word@),
    {
        if same_text(word, "circle") {
            GeometryKind::Circle
        } else {
            GeometryKind::Box
        }
    }

    /// The geometry named by `s`, in any case.
    pub fn from_str(s: &str) -> (r: GeometryKind)
        ensures
            r == geometry_named(lowercase(s@)),
    {
        let lower = to_lowercase(s);
        GeometryKind::from_lowercase(lower.as_str())
    }

    pub fn as_str(&self) -> (r: &'static str)
        ensures
            *self is Box ==> r@ == "box"@,
            *self is Circle ==> r@ == "circle"@,
    {
        match self {
            GeometryKind::Box => "box",
            GeometryKind::Circle => "circle",
        }
    }
}

/// Most Monte Carlo moves a shared link replays on load.
pub const REPLAY_CAP: u64 = 300_000;

/// Moves replayed per sweep call.
pub const REPLAY_CHUNK: u64 = 20_000;

/// How a replay of `requested` moves runs: `run`, the request capped at `REPLAY_CAP`, in
/// sweeps of `REPLAY_CHUNK` moves, the last one taking what is left.
pub fn replay_chunks(requested: u64) -> (r: (u64, Vec<u32>))
    ensures
        r.0 == if requested < REPLAY_CAP {
            requested
        } else {
            REPLAY_CAP
        },
        r.1@.len() == (r.0 + REPLAY_CHUNK - 1) / (REPLAY_CHUNK as int),
        forall|k: int|
            0 <= k < r.1@.len() ==> #[trigger] r.1@[k] == if r.0 - REPLAY_CHUNK * k < REPLAY_CHUNK {
                r.0 - REPLAY_CHUNK * k
            } else {
                REPLAY_CHUNK as int
            },
{
    let run: u64 = if requested < REPLAY_CAP {
        requested
    } else {
        REPLAY_CAP
    };
    let mut chunks: Vec<u32> = Vec::new();
    let mut rem: u64 = run;
    while rem > 0
        invariant
            run == if requested < REPLAY_CAP {
                requested
            } else {
                REPLAY_CAP
            },
            rem <= run,
            run - rem == REPLAY_CHUNK * chunks@.len(),
            forall|k: int| 0 <= k < chunks@.len() ==> #[trigger] chunks@[k] == if run - REPLAY_CHUNK * k
                < REPLAY_CHUNK {
                run - REPLAY_CHUNK * k
            } else {
                REPLAY_CHUNK as int
            },
        decreases rem,
    {
        let chunk: u64 = if rem < REPLAY_CHUNK {
            rem
        } else {
            REPLAY_CHUNK
        };
        if chunk < REPLAY_CHUNK {
            proof {
                assert(run - REPLAY_CHUNK * chunks@.len() == rem);
            }
            chunks.push(chunk as u32);
            proof {
                assert((run + REPLAY_CHUNK - 1) / (REPLAY_CHUNK as int) == chunks@.len()) by (nonlinear_arith)
                    requires
                        run - rem == 20_000 * (chunks@.len() - 1),
                        0 < rem < 20_000,
                {
                }
            }
            return (run, chunks);
        }
        chunks.push(chunk as u32);
        rem = rem - chunk;
    }
    proof {
        assert((run + REPLAY_CHUNK - 1) / (REPLAY_CHUNK as int) == chunks@.len()) by (nonlinear_arith)
            requires
                run == 20_000 * chunks@.len(),
        {
        }
    }
    (run, chunks)
}

/// A character with ASCII capitals folded to lowercase, as a code point.
pub open spec fn ascii_fold(c: char) -> int {
    if 65 <= (c as int) <= 90 {
        c as int + 32
    } else {
        c as int
    }
}

/// The texts are equal when ASCII capitals are read as lowercase.
pub open spec fn same_ignoring_ascii_case(a: Seq<char>, b: Seq<char>) -> bool {
    a.len() == b.len() && forall|i: int| 0 <= i < a.len() ==> ascii_fold(#[trigger] a[i]) == ascii_fold(b[i])
}

/// Whether `s` equals `word` with ASCII capitals read as lowercase.
fn same_ignoring_case(s: &str, word: &str) -> (r: bool)
    ensures
        r == same_ignoring_ascii_case(s@, word@),
{
    let n = s.unicode_len();
    if n != word.unicode_len() {
        return false;
    }
    let mut i: usize = 0;
    while i < n
        invariant
            n == s@.len(),
            n == word@.len(),
            i <= n,
            forall|j: int| 0 <= j < i ==> ascii_fold(#[trigger] s@[j]) == ascii_fold(word@[j]),
        decreases n - i,
    {
        let a = s.get_char(i) as u32;
        let b = word.get_char(i) as u32;
        let fa: u32 = if 65 <= a && a <= 90 {
            a + 32
        } else {
            a
        };
        let fb: u32 = if 65 <= b && b <= 90 {
            b + 32
        } else {
            b
        };
        if fa != fb {
            return false;
        }
        i += 1;
    }
    true
}

/// A yes-or-no query parameter: absent gives `default`; present, it is yes when it reads
/// "1", or "true" or "yes" in any ASCII case.
pub open spec fn flag_value(value: Option<Seq<char>>, default: bool) -> bool {
    match value {
        None => default,
        Some(v) => v == "1"@ || same_ignoring_ascii_case(v, "true"@) || same_ignoring_ascii_case(v, "yes"@),
    }
}

/// Reads a yes-or-no query parameter.
pub fn query_flag(value: Option<&str>, default: bool) -> (r: bool)
    ensures
        r == flag_value(
            match value {
                Some(v) => Some(v@),
                None => None,
            },
            default,
        ),
{
    match value {
        None => default,
        Some(v) => same_text(v, "1") || same_ignoring_case(v, "true") || same_ignoring_case(v, "yes"),
    }
}

} // verus!
