//! Token pools: an ordered, indexable collection of token strings,
//! either a built-in preset list or a list loaded from external lines.

use vstd::prelude::*;

verus! {

/// An ordered pool of token strings. The view is the sequence of the
/// tokens' character sequences.
#[derive(Debug)]
pub enum TokenData {
    /// A built-in preset list of fixed tokens.
    Static(Vec<&'static str>),
    /// A list loaded once from external input.
    Owned(Vec<String>),
}

impl View for TokenData {
    type V = Seq<Seq<char>>;

    open spec fn view(&self) -> Seq<Seq<char>> {
        match self {
            TokenData::Static(v) => v.deep_view(),
            TokenData::Owned(v) => v.deep_view(),
        }
    }
}

impl TokenData {
    /// The number of tokens in the pool.
    pub fn len(&self) -> (n: usize)
        ensures
            n == self@.len(),
    {
        match self {
            TokenData::Static(v) => v.len(),
            TokenData::Owned(v) => v.len(),
        }
    }

    /// The token at a given index.
    pub fn get(&self, idx: usize) -> (t: &str)
        requires
            idx < self@.len(),
        ensures
            t@ == self@[idx as int],
    {
        match self {
            TokenData::Static(v) => v[idx],
            TokenData::Owned(v) => v[idx].as_str(),
        }
    }

    /// The range of valid indices into the pool.
    pub fn range(&self) -> (r: core::ops::Range<usize>)
        ensures
            r.start == 0,
            r.end == self@.len(),
    {
        0..self.len()
    }
}

/// The words of the built-in word preset, in order.
pub open spec fn word_tokens() -> Seq<Seq<char>> {
    seq![
        "apple"@, "arrow"@, "badge"@, "beach"@, "berry"@, "blaze"@,
        "brave"@, "bread"@, "brick"@, "brook"@, "cabin"@, "candle"@,
        "cedar"@, "chalk"@, "cliff"@, "cloud"@, "coral"@, "crane"@,
        "dream"@, "eagle"@, "ember"@, "fable"@, "fern"@, "flame"@,
        "forest"@, "frost"@, "garden"@, "glade"@, "grape"@, "harbor"@,
        "hazel"@, "honey"@, "island"@, "ivory"@, "lemon"@, "linen"@,
        "maple"@, "meadow"@, "mellow"@, "mint"@, "moss"@, "night"@,
        "ocean"@, "olive"@, "orchid"@, "otter"@, "pearl"@, "pebble"@,
        "pine"@, "plum"@, "raven"@, "river"@, "shadow"@, "silver"@,
        "spruce"@, "stone"@, "summer"@, "thistle"@, "timber"@, "violet"@,
        "willow"@, "winter"@, "woven"@, "zephyr"@,
    ]
}

/// The built-in word preset: 64 common words, each non-empty.
pub fn word_pool() -> (p: TokenData)
    ensures
        p@ == word_tokens(),
        p@.len() == 64,
        forall|i: int| 0 <= i < 64 ==> (#[trigger] p@[i]).len() >= 1,
{
    let mut v: Vec<&'static str> = Vec::new();
    v.push("apple");
    v.push("arrow");
    v.push("badge");
    v.push("beach");
    v.push("berry");
    v.push("blaze");
    v.push("brave");
    v.push("bread");
    v.push("brick");
    v.push("brook");
    v.push("cabin");
    v.push("candle");
    v.push("cedar");
    v.push("chalk");
    v.push("cliff");
    v.push("cloud");
    v.push("coral");
    v.push("crane");
    v.push("dream");
    v.push("eagle");
    v.push("ember");
    v.push("fable");
    v.push("fern");
    v.push("flame");
    v.push("forest");
    v.push("frost");
    v.push("garden");
    v.push("glade");
    v.push("grape");
    v.push("harbor");
    v.push("hazel");
    v.push("honey");
    v.push("island");
    v.push("ivory");
    v.push("lemon");
    v.push("linen");
    v.push("maple");
    v.push("meadow");
    v.push("mellow");
    v.push("mint");
    v.push("moss");
    v.push("night");
    v.push("ocean");
    v.push("olive");
    v.push("orchid");
    v.push("otter");
    v.push("pearl");
    v.push("pebble");
    v.push("pine");
    v.push("plum");
    v.push("raven");
    v.push("river");
    v.push("shadow");
    v.push("silver");
    v.push("spruce");
    v.push("stone");
    v.push("summer");
    v.push("thistle");
    v.push("timber");
    v.push("violet");
    v.push("willow");
    v.push("winter");
    v.push("woven");
    v.push("zephyr");
    let p = TokenData::Static(v);
    proof {
        reveal_strlit("apple");
        reveal_strlit("arrow");
        reveal_strlit("badge");
        reveal_strlit("beach");
        reveal_strlit("berry");
        reveal_strlit("blaze");
        reveal_strlit("brave");
        reveal_strlit("bread");
        reveal_strlit("brick");
        reveal_strlit("brook");
        reveal_strlit("cabin");
        reveal_strlit("candle");
        reveal_strlit("cedar");
        reveal_strlit("chalk");
        reveal_strlit("cliff");
        reveal_strlit("cloud");
        reveal_strlit("coral");
        reveal_strlit("crane");
        reveal_strlit("dream");
        reveal_strlit("eagle");
        reveal_strlit("ember");
        reveal_strlit("fable");
        reveal_strlit("fern");
        reveal_strlit("flame");
        reveal_strlit("forest");
        reveal_strlit("frost");
        reveal_strlit("garden");
        reveal_strlit("glade");
        reveal_strlit("grape");
        reveal_strlit("harbor");
        reveal_strlit("hazel");
        reveal_strlit("honey");
        reveal_strlit("island");
        reveal_strlit("ivory");
        reveal_strlit("lemon");
        reveal_strlit("linen");
        reveal_strlit("maple");
        reveal_strlit("meadow");
        reveal_strlit("mellow");
        reveal_strlit("mint");
        reveal_strlit("moss");
        reveal_strlit("night");
        reveal_strlit("ocean");
        reveal_strlit("olive");
        reveal_strlit("orchid");
        reveal_strlit("otter");
        reveal_strlit("pearl");
        reveal_strlit("pebble");
        reveal_strlit("pine");
        reveal_strlit("plum");
        reveal_strlit("raven");
        reveal_strlit("river");
        reveal_strlit("shadow");
        reveal_strlit("silver");
        reveal_strlit("spruce");
        reveal_strlit("stone");
        reveal_strlit("summer");
        reveal_strlit("thistle");
        reveal_strlit("timber");
        reveal_strlit("violet");
        reveal_strlit("willow");
        reveal_strlit("winter");
        reveal_strlit("woven");
        reveal_strlit("zephyr");
        assert(p@ =~~= word_tokens());
    }
    p
}

/// The printable ASCII characters, one token each, in code order.
pub open spec fn ascii_tokens() -> Seq<Seq<char>> {
    seq![
        "!"@, "\""@, "#"@, "$"@, "%"@, "&"@, "'"@, "("@,
        ")"@, "*"@, "+"@, ","@, "-"@, "."@, "/"@, "0"@,
        "1"@, "2"@, "3"@, "4"@, "5"@, "6"@, "7"@, "8"@,
        "9"@, ":"@, ";"@, "<"@, "="@, ">"@, "?"@, "@"@,
        "A"@, "B"@, "C"@, "D"@, "E"@, "F"@, "G"@, "H"@,
        "I"@, "J"@, "K"@, "L"@, "M"@, "N"@, "O"@, "P"@,
        "Q"@, "R"@, "S"@, "T"@, "U"@, "V"@, "W"@, "X"@,
        "Y"@, "Z"@, "["@, "\\"@, "]"@, "^"@, "_"@, "`"@,
        "a"@, "b"@, "c"@, "d"@, "e"@, "f"@, "g"@, "h"@,
        "i"@, "j"@, "k"@, "l"@, "m"@, "n"@, "o"@, "p"@,
        "q"@, "r"@, "s"@, "t"@, "u"@, "v"@, "w"@, "x"@,
        "y"@, "z"@, "{"@, "|"@, "}"@, "~"@,
    ]
}

/// The built-in symbol preset: the 94 printable ASCII characters; token
/// `i` is the single character with code `33 + i`.
#[verifier::rlimit(100)]
pub fn ascii_pool() -> (p: TokenData)
    ensures
        p@ == ascii_tokens(),
        p@.len() == 94,
        forall|i: int|
            0 <= i < 94 ==> (#[trigger] p@[i]).len() == 1 && p@[i][0] as u32 == 33 + i,
{
    let mut v: Vec<&'static str> = Vec::new();
    v.push("!");
    v.push("\"");
    v.push("#");
    v.push("$");
    v.push("%");
    v.push("&");
    v.push("'");
    v.push("(");
    v.push(")");
    v.push("*");
    v.push("+");
    v.push(",");
    v.push("-");
    v.push(".");
    v.push("/");
    v.push("0");
    v.push("1");
    v.push("2");
    v.push("3");
    v.push("4");
    v.push("5");
    v.push("6");
    v.push("7");
    v.push("8");
    v.push("9");
    v.push(":");
    v.push(";");
    v.push("<");
    v.push("=");
    v.push(">");
    v.push("?");
    v.push("@");
    v.push("A");
    v.push("B");
    v.push("C");
    v.push("D");
    v.push("E");
    v.push("F");
    v.push("G");
    v.push("H");
    v.push("I");
    v.push("J");
    v.push("K");
    v.push("L");
    v.push("M");
    v.push("N");
    v.push("O");
    v.push("P");
    v.push("Q");
    v.push("R");
    v.push("S");
    v.push("T");
    v.push("U");
    v.push("V");
    v.push("W");
    v.push("X");
    v.push("Y");
    v.push("Z");
    v.push("[");
    v.push("\\");
    v.push("]");
    v.push("^");
    v.push("_");
    v.push("`");
    v.push("a");
    v.push("b");
    v.push("c");
    v.push("d");
    v.push("e");
    v.push("f");
    v.push("g");
    v.push("h");
    v.push("i");
    v.push("j");
    v.push("k");
    v.push("l");
    v.push("m");
    v.push("n");
    v.push("o");
    v.push("p");
    v.push("q");
    v.push("r");
    v.push("s");
    v.push("t");
    v.push("u");
    v.push("v");
    v.push("w");
    v.push("x");
    v.push("y");
    v.push("z");
    v.push("{");
    v.push("|");
    v.push("}");
    v.push("~");
    let p = TokenData::Static(v);
    proof {
        reveal_strlit("!");
        reveal_strlit("\"");
        reveal_strlit("#");
        reveal_strlit("$");
        reveal_strlit("%");
        reveal_strlit("&");
        reveal_strlit("'");
        reveal_strlit("(");
        reveal_strlit(")");
        reveal_strlit("*");
        reveal_strlit("+");
        reveal_strlit(",");
        reveal_strlit("-");
        reveal_strlit(".");
        reveal_strlit("/");
        reveal_strlit("0");
        reveal_strlit("1");
        reveal_strlit("2");
        reveal_strlit("3");
        reveal_strlit("4");
        reveal_strlit("5");
        reveal_strlit("6");
        reveal_strlit("7");
        reveal_strlit("8");
        reveal_strlit("9");
        reveal_strlit(":");
        reveal_strlit(";");
        reveal_strlit("<");
        reveal_strlit("=");
        reveal_strlit(">");
        reveal_strlit("?");
        reveal_strlit("@");
        reveal_strlit("A");
        reveal_strlit("B");
        reveal_strlit("C");
        reveal_strlit("D");
        reveal_strlit("E");
        reveal_strlit("F");
        reveal_strlit("G");
        reveal_strlit("H");
        reveal_strlit("I");
        reveal_strlit("J");
        reveal_strlit("K");
        reveal_strlit("L");
        reveal_strlit("M");
        reveal_strlit("N");
        reveal_strlit("O");
        reveal_strlit("P");
        reveal_strlit("Q");
        reveal_strlit("R");
        reveal_strlit("S");
        reveal_strlit("T");
        reveal_strlit("U");
        reveal_strlit("V");
        reveal_strlit("W");
        reveal_strlit("X");
        reveal_strlit("Y");
        reveal_strlit("Z");
        reveal_strlit("[");
        reveal_strlit("\\");
        reveal_strlit("]");
        reveal_strlit("^");
        reveal_strlit("_");
        reveal_strlit("`");
        reveal_strlit("a");
        reveal_strlit("b");
        reveal_strlit("c");
        reveal_strlit("d");
        reveal_strlit("e");
        reveal_strlit("f");
        reveal_strlit("g");
        reveal_strlit("h");
        reveal_strlit("i");
        reveal_strlit("j");
        reveal_strlit("k");
        reveal_strlit("l");
        reveal_strlit("m");
        reveal_strlit("n");
        reveal_strlit("o");
        reveal_strlit("p");
        reveal_strlit("q");
        reveal_strlit("r");
        reveal_strlit("s");
        reveal_strlit("t");
        reveal_strlit("u");
        reveal_strlit("v");
        reveal_strlit("w");
        reveal_strlit("x");
        reveal_strlit("y");
        reveal_strlit("z");
        reveal_strlit("{");
        reveal_strlit("|");
        reveal_strlit("}");
        reveal_strlit("~");
        assert(p@ =~~= ascii_tokens());
    }
    p
}

/// The ten decimal digits, one token each, in order.
pub open spec fn number_tokens() -> Seq<Seq<char>> {
    seq![
        "0"@, "1"@, "2"@, "3"@, "4"@, "5"@,
        "6"@, "7"@, "8"@, "9"@,
    ]
}

/// The built-in digit preset: token `i` is the decimal digit `i`.
pub fn number_pool() -> (p: TokenData)
    ensures
        p@ == number_tokens(),
        p@.len() == 10,
        forall|i: int|
            0 <= i < 10 ==> (#[trigger] p@[i]).len() == 1 && p@[i][0] as u32 == 48 + i,
{
    let mut v: Vec<&'static str> = Vec::new();
    v.push("0");
    v.push("1");
    v.push("2");
    v.push("3");
    v.push("4");
    v.push("5");
    v.push("6");
    v.push("7");
    v.push("8");
    v.push("9");
    let p = TokenData::Static(v);
    proof {
        reveal_strlit("0");
        reveal_strlit("1");
        reveal_strlit("2");
        reveal_strlit("3");
        reveal_strlit("4");
        reveal_strlit("5");
        reveal_strlit("6");
        reveal_strlit("7");
        reveal_strlit("8");
        reveal_strlit("9");
        assert(p@ =~~= number_tokens());
    }
    p
}

/// A token file that yields no pool: its lines cannot be read as text,
/// or no non-empty line is left after trimming.
#[derive(Clone, Copy, PartialEq, Eq, Structural, Debug)]
pub enum PoolError {
    InvalidLine,
    Empty,
}

/// A whitespace byte, stripped from the ends of a line.
pub open spec fn is_ws(b: u8) -> bool {
    b == 32 || (9 <= b && b <= 13)
}

/// The segments of `s` between newline bytes, scanning from `i` with the
/// current segment begun at `start`; a final segment closed by the end of
/// input is kept only if non-empty.
pub open spec fn split_from(s: Seq<u8>, i: int, start: int) -> Seq<Seq<u8>>
    decreases s.len() - i,
{
    if !(0 <= start <= i <= s.len()) {
        Seq::empty()
    } else if i == s.len() {
        if start < s.len() {
            seq![s.subrange(start, s.len() as int)]
        } else {
            Seq::empty()
        }
    } else if s[i] == 10 {
        seq![s.subrange(start, i)] + split_from(s, i + 1, i + 1)
    } else {
        split_from(s, i + 1, start)
    }
}

/// The lines of `s`: the segments between newline bytes.
pub open spec fn split_lines(s: Seq<u8>) -> Seq<Seq<u8>> {
    split_from(s, 0, 0)
}

pub open spec fn trim_front(s: Seq<u8>) -> Seq<u8>
    decreases s.len(),
{
    if s.len() > 0 && is_ws(s[0]) {
        trim_front(s.drop_first())
    } else {
        s
    }
}

pub open spec fn trim_back(s: Seq<u8>) -> Seq<u8>
    decreases s.len(),
{
    if s.len() > 0 && is_ws(s.last()) {
        trim_back(s.drop_last())
    } else {
        s
    }
}

/// `s` without leading and trailing whitespace.
pub open spec fn trimmed(s: Seq<u8>) -> Seq<u8> {
    trim_back(trim_front(s))
}

/// The trimmed lines that are non-empty, in order.
pub open spec fn clean(lines: Seq<Seq<u8>>) -> Seq<Seq<u8>>
    decreases lines.len(),
{
    if lines.len() == 0 {
        Seq::empty()
    } else {
        clean(lines.drop_last()) + if trimmed(lines.last()).len() > 0 {
            seq![trimmed(lines.last())]
        } else {
            Seq::empty()
        }
    }
}

/// The tokens a byte input carries: its trimmed non-empty lines.
pub open spec fn token_lines(s: Seq<u8>) -> Seq<Seq<u8>> {
    clean(split_lines(s))
}

/// The characters of each byte line.
pub open spec fn decoded(lines: Seq<Seq<u8>>) -> Seq<Seq<char>> {
    Seq::new(lines.len(), |i: int| vstd::utf8::decode_utf8(lines[i]))
}

/// The cleaned prefix never shrinks: cleaning a prefix of the lines
/// yields a prefix of cleaning them all.
proof fn lemma_clean_prefix(lines: Seq<Seq<u8>>, j: int)
    requires
        0 <= j <= lines.len(),
    ensures
        clean(lines.subrange(0, j)).len() <= clean(lines).len(),
        forall|k: int|
            0 <= k < clean(lines.subrange(0, j)).len() ==> clean(lines)[k] == clean(
                lines.subrange(0, j),
            )[k],
    decreases lines.len() - j,
{
    if j == lines.len() {
        assert(lines.subrange(0, j) =~= lines);
    } else {
        lemma_clean_prefix(lines, j + 1);
        let p = lines.subrange(0, j);
        let q = lines.subrange(0, j + 1);
        assert(q.drop_last() =~= p);
        assert(q.last() == lines[j]);
    }
}

/// A copy of `data[a..b]`.
fn subvec(data: &Vec<u8>, a: usize, b: usize) -> (r: Vec<u8>)
    requires
        a <= b <= data@.len(),
    ensures
        r@ == data@.subrange(a as int, b as int),
{
    let s = vstd::slice::slice_subrange(data.as_slice(), a, b);
    vstd::slice::slice_to_vec(s)
}

/// Split on newline bytes, exactly as `split_lines` says.
fn split_bytes(data: &Vec<u8>) -> (lines: Vec<Vec<u8>>)
    ensures
        lines.deep_view() == split_lines(data@),
{
    let mut lines: Vec<Vec<u8>> = Vec::new();
    let mut start: usize = 0;
    let mut i: usize = 0;
    while i < data.len()
        invariant
            0 <= start <= i <= data@.len(),
            split_lines(data@) == lines.deep_view() + split_from(
                data@,
                i as int,
                start as int,
            ),
        decreases data@.len() - i,
    {
        if data[i] == 10 {
            let line = subvec(data, start, i);
            let ghost prev = lines.deep_view();
            lines.push(line);
            proof {
                assert(lines.deep_view() =~~= prev.push(line@));
                assert(split_lines(data@) =~= lines.deep_view() + split_from(
                    data@,
                    i + 1,
                    i + 1,
                ));
            }
            i = i + 1;
            start = i;
        } else {
            i = i + 1;
        }
    }
    if start < data.len() {
        let line = subvec(data, start, data.len());
        let ghost prev = lines.deep_view();
        lines.push(line);
        proof {
            assert(lines.deep_view() =~~= prev.push(line@));
            assert(split_lines(data@) =~= lines.deep_view());
        }
    } else {
        proof {
            assert(split_lines(data@) =~= lines.deep_view());
        }
    }
    lines
}

fn byte_is_ws(b: u8) -> (r: bool)
    ensures
        r == is_ws(b),
{
    b == 32 || (9 <= b && b <= 13)
}

/// Strip whitespace from both ends, exactly as `trimmed` says.
pub(crate) fn trim_bytes(line: &Vec<u8>) -> (r: Vec<u8>)
    ensures
        r@ == trimmed(line@),
{
    let n = line.len();
    proof {
        assert(line@.subrange(0, n as int) =~= line@);
    }
    let mut lo: usize = 0;
    while lo < n && byte_is_ws(line[lo])
        invariant
            n == line@.len(),
            0 <= lo <= n,
            trim_front(line@) == trim_front(line@.subrange(lo as int, n as int)),
        decreases n - lo,
    {
        proof {
            let cur = line@.subrange(lo as int, n as int);
            assert(cur[0] == line@[lo as int]);
            assert(cur.drop_first() =~= line@.subrange(lo + 1, n as int));
        }
        lo = lo + 1;
    }
    proof {
        let cur = line@.subrange(lo as int, n as int);
        if cur.len() > 0 {
            assert(cur[0] == line@[lo as int]);
        }
        assert(trim_front(line@) == cur);
    }
    let mut hi: usize = n;
    while hi > lo && byte_is_ws(line[hi - 1])
        invariant
            n == line@.len(),
            0 <= lo <= hi <= n,
            trim_front(line@) == line@.subrange(lo as int, n as int),
            trimmed(line@) == trim_back(line@.subrange(lo as int, hi as int)),
        decreases hi,
    {
        proof {
            let cur = line@.subrange(lo as int, hi as int);
            assert(cur.last() == line@[hi - 1]);
            assert(cur.drop_last() =~= line@.subrange(lo as int, hi - 1));
        }
        hi = hi - 1;
    }
    proof {
        let cur = line@.subrange(lo as int, hi as int);
        if cur.len() > 0 {
            assert(cur.last() == line@[hi - 1]);
        }
        assert(trimmed(line@) == cur);
    }
    subvec(line, lo, hi)
}

/// Relies on String::from_utf8: it accepts exactly valid UTF-8, decoding
/// those bytes to the string's characters.
#[verifier::external_body]
fn bytes_to_string(v: Vec<u8>) -> (r: Option<String>)
    ensures
        r is Some <==> vstd::utf8::valid_utf8(v@),
        r matches Some(s) ==> s@ == vstd::utf8::decode_utf8(v@),
{
    String::from_utf8(v).ok()
}

impl TokenData {
    /// The pool read from raw bytes: one token per trimmed non-empty
    /// line. A line that is not valid text is a read failure, and a
    /// pool without tokens is refused.
    pub fn from_bytes(data: &Vec<u8>) -> (r: Result<TokenData, PoolError>)
        ensures
            match r {
                Ok(p) => {
                    &&& token_lines(data@).len() >= 1
                    &&& forall|i: int|
                        0 <= i < token_lines(data@).len() ==> vstd::utf8::valid_utf8(
                            #[trigger] token_lines(data@)[i],
                        )
                    &&& p@ == decoded(token_lines(data@))
                },
                Err(PoolError::InvalidLine) => exists|i: int|
                    0 <= i < token_lines(data@).len() && !vstd::utf8::valid_utf8(
                        #[trigger] token_lines(data@)[i],
                    ) && (forall|k: int|
                        0 <= k < i ==> vstd::utf8::valid_utf8(#[trigger] token_lines(data@)[k])),
                Err(PoolError::Empty) => token_lines(data@).len() == 0,
            },
    {
        let lines = split_bytes(data);
        let ghost all = lines.deep_view();
        let mut toks: Vec<String> = Vec::new();
        let mut j: usize = 0;
        while j < lines.len()
            invariant
                all == split_lines(data@),
                all == lines.deep_view(),
                lines@.len() == all.len(),
                0 <= j <= all.len(),
                toks.deep_view() == decoded(clean(all.subrange(0, j as int))),
                forall|k: int|
                    0 <= k < clean(all.subrange(0, j as int)).len() ==> vstd::utf8::valid_utf8(
                        #[trigger] clean(all.subrange(0, j as int))[k],
                    ),
            decreases all.len() - j,
        {
            let t = trim_bytes(&lines[j]);
            let ghost pj = all.subrange(0, j as int);
            let ghost pj1 = all.subrange(0, j + 1);
            proof {
                assert(pj1.drop_last() =~= pj);
                assert(pj1.last() == all[j as int]);
                assert(lines@[j as int].deep_view() == all[j as int]);
                assert(lines@[j as int].deep_view() =~= lines@[j as int]@);
                assert(t@ == trimmed(all[j as int]));
            }
            if t.len() > 0 {
                proof {
                    assert(clean(pj1) =~= clean(pj).push(t@));
                }
                match bytes_to_string(t) {
                    Some(tok) => {
                        let ghost prev = toks.deep_view();
                        toks.push(tok);
                        proof {
                            assert(toks.deep_view() =~= prev.push(tok@));
                            assert(toks.deep_view() =~= decoded(clean(pj1)));
                        }
                    },
                    None => {
                        proof {
                            lemma_clean_prefix(all, j as int);
                            lemma_clean_prefix(all, j + 1);
                            let w = clean(pj).len() as int;
                            assert(clean(pj1)[w] == t@);
                            assert(token_lines(data@)[w] == t@);
                            assert(!vstd::utf8::valid_utf8(token_lines(data@)[w]));
                            assert(forall|k: int|
                                0 <= k < w ==> vstd::utf8::valid_utf8(
                                    #[trigger] token_lines(data@)[k],
                                )) by {
                                assert(forall|k: int|
                                    0 <= k < w ==> token_lines(data@)[k] == #[trigger] clean(
                                        pj,
                                    )[k]);
                            }
                        }
                        return Err(PoolError::InvalidLine);
                    },
                }
            } else {
                proof {
                    assert(clean(pj1) =~= clean(pj));
                    assert(toks.deep_view() =~= decoded(clean(pj1)));
                }
            }
            j = j + 1;
        }
        proof {
            assert(all.subrange(0, all.len() as int) =~= all);
        }
        if toks.len() == 0 {
            proof {
                assert(decoded(token_lines(data@)).len() == 0);
            }
            Err(PoolError::Empty)
        } else {
            Ok(TokenData::Owned(toks))
        }
    }
}

} // verus!