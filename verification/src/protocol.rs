//! The names of subprotocols: the closed list of known protocols, and names
//! that are accepted without being known.

use crate::errors::ProtoverError;
use crate::table::Key;
use crate::text::to_chars;
use vstd::prelude::*;
use vstd::std_specs::convert::FromSpecImpl;
use vstd::string::StringExecFns;

verus! {

/// The longest name that an `UnknownProtocol` takes, in characters, unless
/// it is built with `from_str_any_len`.
pub const MAX_PROTOCOL_NAME_LENGTH: usize = 100;

/// The subprotocols that this implementation knows.
#[derive(Clone, Copy, Debug, PartialEq, Eq, Hash, Structural)]
pub enum Protocol {
    Cons,
    Desc,
    DirCache,
    HSDir,
    HSIntro,
    HSRend,
    Link,
    LinkAuth,
    Microdesc,
    Relay,
}

/// The name of a known protocol.
pub open spec fn protocol_name(protocol: Protocol) -> Seq<char> {
    match protocol {
        Protocol::Cons => "Cons"@,
        Protocol::Desc => "Desc"@,
        Protocol::DirCache => "DirCache"@,
        Protocol::HSDir => "HSDir"@,
        Protocol::HSIntro => "HSIntro"@,
        Protocol::HSRend => "HSRend"@,
        Protocol::Link => "Link"@,
        Protocol::LinkAuth => "LinkAuth"@,
        Protocol::Microdesc => "Microdesc"@,
        Protocol::Relay => "Relay"@,
    }
}

/// The known protocol of this name, if there is one.
pub open spec fn known_protocol(name: Seq<char>) -> Option<Protocol> {
    if name == "Cons"@ {
        Some(Protocol::Cons)
    } else if name == "Desc"@ {
        Some(Protocol::Desc)
    } else if name == "DirCache"@ {
        Some(Protocol::DirCache)
    } else if name == "HSDir"@ {
        Some(Protocol::HSDir)
    } else if name == "HSIntro"@ {
        Some(Protocol::HSIntro)
    } else if name == "HSRend"@ {
        Some(Protocol::HSRend)
    } else if name == "Link"@ {
        Some(Protocol::Link)
    } else if name == "LinkAuth"@ {
        Some(Protocol::LinkAuth)
    } else if name == "Microdesc"@ {
        Some(Protocol::Microdesc)
    } else if name == "Relay"@ {
        Some(Protocol::Relay)
    } else {
        None
    }
}

/// The names of the known protocols are not empty and differ from each
/// other: a protocol is found again by its name, and only by its name.
pub proof fn lemma_protocol_names(protocol: Protocol)
    ensures
        known_protocol(protocol_name(protocol)) == Some(protocol),
        0 < protocol_name(protocol).len() <= MAX_PROTOCOL_NAME_LENGTH,
        forall|name: Seq<char>|
            known_protocol(name) == Some(protocol) ==> name == protocol_name(protocol),
        !protocol_name(protocol).contains('='),
        !protocol_name(protocol).contains(' '),
{
    reveal_strlit("Cons");
    reveal_strlit("Desc");
    reveal_strlit("DirCache");
    reveal_strlit("HSDir");
    reveal_strlit("HSIntro");
    reveal_strlit("HSRend");
    reveal_strlit("Link");
    reveal_strlit("LinkAuth");
    reveal_strlit("Microdesc");
    reveal_strlit("Relay");
    assert("Cons"@.len() == 4 && "Desc"@.len() == 4 && "Link"@.len() == 4);
    assert("HSDir"@.len() == 5 && "Relay"@.len() == 5);
    assert("HSRend"@.len() == 6);
    assert("HSIntro"@.len() == 7);
    assert("DirCache"@.len() == 8 && "LinkAuth"@.len() == 8);
    assert("Microdesc"@.len() == 9);
    assert("Cons"@[0] == 'C' && "Desc"@[0] == 'D' && "Link"@[0] == 'L');
    assert("HSDir"@[0] == 'H' && "Relay"@[0] == 'R');
    assert("DirCache"@[0] == 'D' && "LinkAuth"@[0] == 'L');
    let name = protocol_name(protocol);
    assert forall|i: int| 0 <= i < name.len() implies name[i] != '=' && name[i] != ' ' by {}
}

/// Whether `chars` spells `word`.
fn spells(chars: &Vec<char>, word: &str) -> (r: bool)
    ensures
        r == (chars@ == word@),
{
    let letters = to_chars(word);
    if chars.len() != letters.len() {
        return false;
    }
    let mut i: usize = 0;
    while i < chars.len()
        invariant
            i <= chars.len(),
            chars.len() == letters.len(),
            letters@ == word@,
            chars@.take(i as int) == letters@.take(i as int),
        decreases chars.len() - i,
    {
        if chars[i] != letters[i] {
            return false;
        }
        assert(chars@.take(i + 1) == chars@.take(i as int).push(chars@[i as int]));
        assert(letters@.take(i + 1) == letters@.take(i as int).push(letters@[i as int]));
        i += 1;
    }
    assert(chars@ == chars@.take(i as int));
    assert(letters@ == letters@.take(i as int));
    true
}

impl Protocol {
    /// The name of this protocol.
    pub fn name(&self) -> (r: &'static str)
        ensures
            r@ == protocol_name(*self),
    {
        match self {
            Protocol::Cons => "Cons",
            Protocol::Desc => "Desc",
            Protocol::DirCache => "DirCache",
            Protocol::HSDir => "HSDir",
            Protocol::HSIntro => "HSIntro",
            Protocol::HSRend => "HSRend",
            Protocol::Link => "Link",
            Protocol::LinkAuth => "LinkAuth",
            Protocol::Microdesc => "Microdesc",
            Protocol::Relay => "Relay",
        }
    }

    /// The name of this protocol, as a `String`.
    pub fn to_string(&self) -> (r: String)
        ensures
            r@ == protocol_name(*self),
    {
        String::from_str(self.name())
    }

    /// The known protocol that `s` names; any other text is an unknown
    /// protocol.
    pub fn from_str(s: &str) -> (r: Result<Protocol, ProtoverError>)
        ensures
            r == match known_protocol(s@) {
                Some(protocol) => Ok::<_, ProtoverError>(protocol),
                None => Err(ProtoverError::UnknownProtocol),
            },
    {
        let chars = to_chars(s);
        if spells(&chars, "Cons") {
            Ok(Protocol::Cons)
        } else if spells(&chars, "Desc") {
            Ok(Protocol::Desc)
        } else if spells(&chars, "DirCache") {
            Ok(Protocol::DirCache)
        } else if spells(&chars, "HSDir") {
            Ok(Protocol::HSDir)
        } else if spells(&chars, "HSIntro") {
            Ok(Protocol::HSIntro)
        } else if spells(&chars, "HSRend") {
            Ok(Protocol::HSRend)
        } else if spells(&chars, "Link") {
            Ok(Protocol::Link)
        } else if spells(&chars, "LinkAuth") {
            Ok(Protocol::LinkAuth)
        } else if spells(&chars, "Microdesc") {
            Ok(Protocol::Microdesc)
        } else if spells(&chars, "Relay") {
            Ok(Protocol::Relay)
        } else {
            Err(ProtoverError::UnknownProtocol)
        }
    }
}

impl Key for Protocol {
    type Id = Protocol;

    open spec fn id(&self) -> Protocol {
        *self
    }

    fn is(&self, other: &Protocol) -> (r: bool) {
        *self == *other
    }

    fn duplicate(&self) -> (r: Protocol) {
        *self
    }
}

/// The name of a protocol that need not be among the known ones. The name
/// is never empty; the view is the name.
#[derive(Debug, Hash)]
pub struct UnknownProtocol(String);

impl View for UnknownProtocol {
    type V = Seq<char>;

    closed spec fn view(&self) -> Seq<char> {
        self.0@
    }
}

/// Why `name` is not taken as the name of a protocol, if it is not: it is
/// empty, or it is longer than `MAX_PROTOCOL_NAME_LENGTH` while the length
/// is limited.
pub open spec fn name_defect(name: Seq<char>, any_len: bool) -> Option<ProtoverError> {
    if name.len() == 0 {
        Some(ProtoverError::Unparseable)
    } else if !any_len && name.len() > MAX_PROTOCOL_NAME_LENGTH {
        Some(ProtoverError::ExceedsNameLimit)
    } else {
        None
    }
}

impl UnknownProtocol {
    /// The name is not empty.
    #[verifier::type_invariant]
    spec fn is_named(&self) -> bool {
        self.0@.len() > 0
    }

    /// Takes `s` as the name of a protocol, unless it is empty or longer
    /// than `MAX_PROTOCOL_NAME_LENGTH` characters.
    pub fn from_str(s: &str) -> (r: Result<UnknownProtocol, ProtoverError>)
        ensures
            match r {
                Ok(protocol) => name_defect(s@, false) is None && protocol@ == s@,
                Err(e) => name_defect(s@, false) == Some(e),
            },
    {
        if s.is_empty() {
            Err(ProtoverError::Unparseable)
        } else if s.unicode_len() <= MAX_PROTOCOL_NAME_LENGTH {
            Ok(UnknownProtocol(String::from_str(s)))
        } else {
            Err(ProtoverError::ExceedsNameLimit)
        }
    }

    /// Takes `s` as the name of a protocol, however long, unless it is
    /// empty.
    pub fn from_str_any_len(s: &str) -> (r: Result<UnknownProtocol, ProtoverError>)
        ensures
            match r {
                Ok(protocol) => name_defect(s@, true) is None && protocol@ == s@,
                Err(e) => name_defect(s@, true) == Some(e),
            },
    {
        if s.is_empty() {
            Err(ProtoverError::Unparseable)
        } else {
            Ok(UnknownProtocol(String::from_str(s)))
        }
    }

    /// The name.
    pub fn as_str(&self) -> (r: &str)
        ensures
            r@ == self@,
            r@.len() > 0,
    {
        proof {
            use_type_invariant(self);
        }
        self.0.as_str()
    }

    /// The name, as a `String`.
    pub fn to_string(&self) -> (r: String)
        ensures
            r@ == self@,
    {
        self.0.clone()
    }
}

impl Clone for UnknownProtocol {
    fn clone(&self) -> (r: UnknownProtocol)
        ensures
            r@ == self@,
    {
        proof {
            use_type_invariant(self);
        }
        UnknownProtocol(self.0.clone())
    }
}

impl PartialEq for UnknownProtocol {
    /// Two names are equal when they are spelt alike.
    fn eq(&self, other: &UnknownProtocol) -> (r: bool) {
        self.0 == other.0
    }
}

impl vstd::std_specs::cmp::PartialEqSpecImpl for UnknownProtocol {
    open spec fn obeys_eq_spec() -> bool {
        true
    }

    open spec fn eq_spec(&self, other: &UnknownProtocol) -> bool {
        self@ == other@
    }
}

impl Eq for UnknownProtocol {

}

impl From<Protocol> for UnknownProtocol {
    /// The name of a known protocol.
    fn from(p: Protocol) -> (r: UnknownProtocol)
        ensures
            r@ == protocol_name(p),
    {
        proof {
            lemma_protocol_names(p);
        }
        UnknownProtocol(p.to_string())
    }
}

/// What `from` returns is stated by its `ensures`, over views; no value of
/// the type can be written down in a specification.
impl FromSpecImpl<Protocol> for UnknownProtocol {
    open spec fn obeys_from_spec() -> bool {
        false
    }

    open spec fn from_spec(p: Protocol) -> UnknownProtocol {
        arbitrary()
    }
}

impl Key for UnknownProtocol {
    type Id = Seq<char>;

    open spec fn id(&self) -> Seq<char> {
        self@
    }

    fn is(&self, other: &UnknownProtocol) -> (r: bool) {
        self.0 == other.0
    }

    fn duplicate(&self) -> (r: UnknownProtocol) {
        self.clone()
    }
}

impl core::str::FromStr for Protocol {
    type Err = ProtoverError;

    /// The known protocol that `s` names; see `Protocol::from_str`.
    fn from_str(s: &str) -> (r: Result<Protocol, ProtoverError>)
        ensures
            r == match known_protocol(s@) {
                Some(protocol) => Ok::<_, ProtoverError>(protocol),
                None => Err(ProtoverError::UnknownProtocol),
            },
    {
        Protocol::from_str(s)
    }
}

impl core::str::FromStr for UnknownProtocol {
    type Err = ProtoverError;

    /// Takes `s` as the name of a protocol; see `UnknownProtocol::from_str`.
    fn from_str(s: &str) -> (r: Result<UnknownProtocol, ProtoverError>)
        ensures
            match r {
                Ok(protocol) => name_defect(s@, false) is None && protocol@ == s@,
                Err(e) => name_defect(s@, false) == Some(e),
            },
    {
        UnknownProtocol::from_str(s)
    }
}

} // verus!
