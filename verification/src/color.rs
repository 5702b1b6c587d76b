use vstd::prelude::*;
use vstd::std_specs::convert::FromSpecImpl;

verus! {

/// The thread-local random number generator of `rand`.
#[verifier::external_type_specification]
#[verifier::external_body]
pub struct ExThreadRng(rand::rngs::ThreadRng);

/// The thread-local generator, from `rand::rng()`. Nothing is stated of
/// its state.
#[verifier::external_body]
fn thread_rng() -> rand::rngs::ThreadRng {
    rand::rng()
}

/// A byte drawn by `rand::RngExt::random_range` from `lo..=hi`. The draw is
/// random; what is stated is what holds of every outcome: it lies in the
/// range, which `random_range` documents (it panics only on an empty
/// range, which `lo <= hi` rules out).
#[verifier::external_body]
fn random_byte_in(rng: &mut rand::rngs::ThreadRng, lo: u8, hi: u8) -> (b: u8)
    requires
        lo <= hi,
    ensures
        lo <= b <= hi,
{
    rand::RngExt::random_range(rng, lo..=hi)
}

/// The three 8-bit channels of a colour.
#[derive(Debug, Clone, Copy, PartialEq, Eq, Structural)]
pub struct Rgb8 {
    pub r: u8,
    pub g: u8,
    pub b: u8,
}

/// A colour, packed as `0x00RRGGBB` in a `u32`.
#[derive(Debug, Clone, Copy, PartialEq, Eq, Structural)]
pub struct Color(u32);

/// The packed value of the channels `r`, `g`, `b`.
pub open spec fn packed(r: u8, g: u8, b: u8) -> u32 {
    ((r as u32) * 0x10000 + (g as u32) * 0x100 + (b as u32)) as u32
}

impl Color {
    /// The packed value.
    pub closed spec fn value(self) -> u32 {
        self.0
    }

    /// The colour with packed value `v`.
    pub closed spec fn of_value(v: u32) -> Color {
        Color(v)
    }

    /// A colour holds 24 bits.
    pub closed spec fn wf(self) -> bool {
        self.0 < 0x1000000
    }

    /// The colour with channels `r`, `g`, `b`.
    pub fn new(r: u8, g: u8, b: u8) -> (c: Color)
        ensures
            c.value() == packed(r, g, b),
            c.wf(),
    {
        let v: u32 = ((r as u32) << 16u32) | ((g as u32) << 8u32) | (b as u32);
        assert(v == (r as u32) * 0x10000 + (g as u32) * 0x100 + (b as u32)) by (bit_vector)
            requires
                v == ((r as u32) << 16u32) | ((g as u32) << 8u32) | (b as u32),
        ;
        Color(v)
    }

    /// The channels of the colour.
    pub fn to_rgb8(self) -> (c: Rgb8)
        ensures
            self.wf() ==> self.value() == packed(c.r, c.g, c.b),
            c.r == (self.value() / 0x10000) % 0x100,
            c.g == (self.value() / 0x100) % 0x100,
            c.b == self.value() % 0x100,
    {
        let v = self.0;
        let r = ((v >> 16u32) & 0xFFu32) as u8;
        let g = ((v >> 8u32) & 0xFFu32) as u8;
        let b = (v & 0xFFu32) as u8;
        assert(r == (v / 0x10000) % 0x100 && g == (v / 0x100) % 0x100 && b == v % 0x100) by (bit_vector)
            requires
                r == ((v >> 16u32) & 0xFFu32) as u8,
                g == ((v >> 8u32) & 0xFFu32) as u8,
                b == (v & 0xFFu32) as u8,
        ;
        assert(v < 0x1000000 ==> v == (r as u32) * 0x10000 + (g as u32) * 0x100 + (b as u32)) by (bit_vector)
            requires
                r == ((v >> 16u32) & 0xFFu32) as u8,
                g == ((v >> 8u32) & 0xFFu32) as u8,
                b == (v & 0xFFu32) as u8,
        ;
        Rgb8 { r, g, b }
    }

    /// The colour as `#RRGGBB`, each channel in two upper-case hex digits.
    pub fn to_hex_string(&self) -> (s: String)
        ensures
            s@ == "#"@ + hex_byte(((self.value() / 0x10000) % 0x100) as u8) + hex_byte(
                ((self.value() / 0x100) % 0x100) as u8,
            ) + hex_byte((self.value() % 0x100) as u8),
    {
        let c = self.to_rgb8();
        let mut s = String::from_str("#");
        proof {
            reveal_strlit("#");
        }
        push_hex_byte(&mut s, c.r);
        push_hex_byte(&mut s, c.g);
        push_hex_byte(&mut s, c.b);
        s
    }

    /// The colour as written for debugging: `Color(#RRGGBB)`.
    pub fn debug_string(&self) -> (s: String)
        ensures
            s@ == "Color("@ + hex_triplet(*self) + ")"@,
    {
        let mut s = String::from_str("Color(");
        let hex = self.to_hex_string();
        s.append(hex.as_str());
        s.append(")");
        s
    }
}

/// `#RRGGBB` for a colour.
pub open spec fn hex_triplet(c: Color) -> Seq<char> {
    "#"@ + hex_byte(((c.value() / 0x10000) % 0x100) as u8) + hex_byte(
        ((c.value() / 0x100) % 0x100) as u8,
    ) + hex_byte((c.value() % 0x100) as u8)
}

/// The upper-case hex digit of `d < 16`.
pub open spec fn hex_digit(d: u8) -> char {
    if d < 10 {
        ('0' as u8 + d) as char
    } else {
        ('A' as u8 + (d - 10)) as char
    }
}

/// The two upper-case hex digits of a byte.
pub open spec fn hex_byte(b: u8) -> Seq<char> {
    seq![hex_digit(b / 16), hex_digit(b % 16)]
}

/// The `&str` of one upper-case hex digit.
fn hex_digit_str(d: u8) -> (s: &'static str)
    requires
        d < 16,
    ensures
        s@ == seq![hex_digit(d)],
{
    proof {
        reveal_strlit("0");
        reveal_strlit("1");
        reveal_strlit("2");
        reveal_strlit("3");
        reveal_strlit("4");
        reveal_strlit("5");
        reveal_strlit("6");
        reveal_strlit("7");
        reveal_strlit("8");
        reveal_strlit("9");
        reveal_strlit("A");
        reveal_strlit("B");
        reveal_strlit("C");
        reveal_strlit("D");
        reveal_strlit("E");
        reveal_strlit("F");
    }
    let s = match d {
        0 => "0",
        1 => "1",
        2 => "2",
        3 => "3",
        4 => "4",
        5 => "5",
        6 => "6",
        7 => "7",
        8 => "8",
        9 => "9",
        10 => "A",
        11 => "B",
        12 => "C",
        13 => "D",
        14 => "E",
        _ => "F",
    };
    assert(s@ =~= seq![hex_digit(d)]);
    s
}

/// Appends the two upper-case hex digits of `b`.
fn push_hex_byte(s: &mut String, b: u8)
    ensures
        final(s)@ == old(s)@ + hex_byte(b),
{
    s.append(hex_digit_str(b / 16));
    s.append(hex_digit_str(b % 16));
    assert(final(s)@ =~= old(s)@ + hex_byte(b));
}

impl Default for Color {
    /// A colour with each channel drawn at random from `0..=255`.
    fn default() -> (c: Color)
        ensures
            c.wf(),
    {
        let mut rng = thread_rng();
        let r = random_byte_in(&mut rng, 0, 255);
        let g = random_byte_in(&mut rng, 0, 255);
        let b = random_byte_in(&mut rng, 0, 255);
        Color::new(r, g, b)
    }
}

impl From<Rgb8> for Color {
    fn from(c: Rgb8) -> (r: Color) {
        Color::new(c.r, c.g, c.b)
    }
}

impl FromSpecImpl<Rgb8> for Color {
    open spec fn obeys_from_spec() -> bool {
        true
    }

    open spec fn from_spec(c: Rgb8) -> Color {
        Color::of_value(packed(c.r, c.g, c.b))
    }
}

impl From<Color> for Rgb8 {
    fn from(c: Color) -> (r: Rgb8) {
        c.to_rgb8()
    }
}

impl FromSpecImpl<Color> for Rgb8 {
    open spec fn obeys_from_spec() -> bool {
        true
    }

    open spec fn from_spec(c: Color) -> Rgb8 {
        Rgb8 {
            r: ((c.value() / 0x10000) % 0x100) as u8,
            g: ((c.value() / 0x100) % 0x100) as u8,
            b: (c.value() % 0x100) as u8,
        }
    }
}

/// Packing three channels and reading them back gives the same channels.
pub proof fn law_channels_round_trip(r: u8, g: u8, b: u8)
    ensures
        (packed(r, g, b) / 0x10000) % 0x100 == r,
        (packed(r, g, b) / 0x100) % 0x100 == g,
        packed(r, g, b) % 0x100 == b,
        packed(r, g, b) < 0x1000000,
{
    let v = packed(r, g, b);
    assert(v == (r as u32) * 0x10000 + (g as u32) * 0x100 + (b as u32)) by (nonlinear_arith)
        requires
            v == ((r as u32) * 0x10000 + (g as u32) * 0x100 + (b as u32)) as u32,
            r < 256,
            g < 256,
            b < 256,
    ;
    assert((v / 0x10000) % 0x100 == r && (v / 0x100) % 0x100 == g && v % 0x100 == b) by (nonlinear_arith)
        requires
            v == (r as u32) * 0x10000 + (g as u32) * 0x100 + (b as u32),
            r < 256,
            g < 256,
            b < 256,
    ;
}

/// A colour is the colour of its packed value, and the colour of a packed
/// value has that value; it holds 24 bits exactly when the value does.
pub proof fn lemma_of_value(c: Color, v: u32)
    ensures
        Color::of_value(c.value()) == c,
        Color::of_value(v).value() == v,
        Color::of_value(v).wf() <==> v < 0x1000000,
{
}

/// Reading the channels of a colour and packing them again gives the same
/// colour: `Color::from(c.to_rgb8()) == c`.
pub proof fn law_color_round_trip(c: Color)
    requires
        c.wf(),
    ensures
        packed(
            ((c.value() / 0x10000) % 0x100) as u8,
            ((c.value() / 0x100) % 0x100) as u8,
            (c.value() % 0x100) as u8,
        ) == c.value(),
        Color::of_value(
            packed(
                ((c.value() / 0x10000) % 0x100) as u8,
                ((c.value() / 0x100) % 0x100) as u8,
                (c.value() % 0x100) as u8,
            ),
        ) == c,
{
    let v = c.value();
    assert(v < 0x1000000);
    let r = ((v / 0x10000) % 0x100) as u8;
    let g = ((v / 0x100) % 0x100) as u8;
    let b = (v % 0x100) as u8;
    assert(v == (r as u32) * 0x10000 + (g as u32) * 0x100 + (b as u32)) by (nonlinear_arith)
        requires
            v < 0x1000000,
            r == (v / 0x10000) % 0x100,
            g == (v / 0x100) % 0x100,
            b == v % 0x100,
    ;
}

} // verus!
