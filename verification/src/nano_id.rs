use vstd::prelude::*;
use vstd::std_specs::cmp::PartialEqSpecImpl;

verus! {

/// The number of characters of a generated `NanoId`.
pub const NANO_ID_LEN: usize = 6;

/// The characters a generated `NanoId` is drawn from: `a` to `z`.
pub open spec fn nano_alphabet() -> Seq<char> {
    seq![
        'a', 'b', 'c', 'd', 'e', 'f', 'g', 'h', 'i', 'j', 'k', 'l', 'm',
        'n', 'o', 'p', 'q', 'r', 's', 't', 'u', 'v', 'w', 'x', 'y', 'z',
    ]
}

/// A string of `size` characters drawn from `alphabet`, by
/// `nanoid::format` with the crate's default random source
/// (`nanoid::rngs::default`), which is what `nanoid!(size, alphabet)`
/// expands to. The draw is random; what is stated holds of every outcome:
/// the source pushes `size` characters, each taken from `alphabet`, and
/// counts them in bytes, which for an ASCII alphabet is the number of
/// characters. It does not return for `size == 0` or an empty alphabet,
/// and panics for an alphabet longer than 255, which `requires` rules out.
#[verifier::external_body]
fn random_id(alphabet: &[char], size: usize) -> (id: String)
    requires
        0 < size,
        0 < alphabet@.len() <= 255,
        forall|i: int| 0 <= i < alphabet@.len() ==> (alphabet@[i] as u32) < 128,
    ensures
        id@.len() == size,
        forall|i: int| 0 <= i < id@.len() ==> alphabet@.contains(#[trigger] id@[i]),
{
    nanoid::format(nanoid::rngs::default, alphabet, size)
}

/// A short textual identifier.
#[derive(Debug)]
pub struct NanoId(String);

impl Clone for NanoId {
    fn clone(&self) -> (c: NanoId)
        ensures
            c == *self,
            c@ == self@,
    {
        NanoId(self.0.clone())
    }
}

impl View for NanoId {
    type V = Seq<char>;

    closed spec fn view(&self) -> Seq<char> {
        self.0@
    }
}

/// A text that is not a `NanoId`. Every text is one, so this is never
/// produced by `NanoId::from_str`.
#[derive(Debug)]
pub struct NanoIdParseError {
    bad: String,
}

impl NanoIdParseError {
    /// The text that was not understood.
    pub closed spec fn bad_text(&self) -> Seq<char> {
        self.bad@
    }

    /// The message of the error: `<text> is not a valid NanoId!`.
    pub fn to_string(&self) -> (s: String)
        ensures
            s@ == self.bad_text() + " is not a valid NanoId!"@,
    {
        let mut s = self.bad.clone();
        s.append(" is not a valid NanoId!");
        s
    }
}

impl NanoId {
    /// The id whose text is `s`; every text is an id.
    pub fn from_str(s: &str) -> (r: Result<NanoId, NanoIdParseError>)
        ensures
            r matches Ok(id) && id@ == s@,
    {
        Ok(NanoId(String::from_str(s)))
    }

    /// The text of the id.
    pub fn as_str(&self) -> (s: &str)
        ensures
            s@ == self@,
    {
        self.0.as_str()
    }

    /// The text of the id as a `String`.
    pub fn to_string(&self) -> (s: String)
        ensures
            s@ == self@,
    {
        self.0.clone()
    }
}

impl Default for NanoId {
    /// A fresh random id: `NANO_ID_LEN` letters from `a` to `z`.
    fn default() -> (id: NanoId)
        ensures
            id@.len() == NANO_ID_LEN,
            forall|i: int| 0 <= i < id@.len() ==> nano_alphabet().contains(#[trigger] id@[i]),
    {
        let alphabet: Vec<char> = vec![
            'a', 'b', 'c', 'd', 'e', 'f', 'g', 'h', 'i', 'j', 'k', 'l', 'm',
            'n', 'o', 'p', 'q', 'r', 's', 't', 'u', 'v', 'w', 'x', 'y', 'z',
        ];
        assert(alphabet@ =~= nano_alphabet());
        NanoId(random_id(alphabet.as_slice(), NANO_ID_LEN))
    }
}

impl std::str::FromStr for NanoId {
    type Err = NanoIdParseError;

    fn from_str(s: &str) -> (r: Result<NanoId, NanoIdParseError>)
        ensures
            r matches Ok(id) && id@ == s@,
    {
        NanoId::from_str(s)
    }
}

impl PartialEq for NanoId {
    fn eq(&self, other: &Self) -> (r: bool) {
        self.0 == other.0
    }
}

impl Eq for NanoId {
}

impl PartialEqSpecImpl for NanoId {
    open spec fn obeys_eq_spec() -> bool {
        true
    }

    open spec fn eq_spec(&self, other: &Self) -> bool {
        self@ == other@
    }
}

} // verus!
