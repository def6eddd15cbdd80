use vstd::prelude::*;
use vstd::string::StringSliceAdditionalSpecFns;

verus! {

/// The closed set of sources an incident record can come from.
#[derive(Debug, Clone, Copy, PartialEq, Eq, Structural)]
pub enum EndpointType {
    Denial,
    Executable,
    Intrusion,
    Misuse,
    Other,
    Probing,
    Unauthorized,
}

/// ASCII lower-casing of one byte.
pub open spec fn ascii_lower(b: u8) -> u8 {
    if 65 <= b && b <= 90 {
        (b + 32) as u8
    } else {
        b
    }
}

/// Two byte strings that differ at most in the case of ASCII letters.
pub open spec fn eq_ignore_ascii_case(a: Seq<u8>, b: Seq<u8>) -> bool {
    a.len() == b.len() && forall|i: int| 0 <= i < a.len() ==> ascii_lower(#[trigger] a[i]) == ascii_lower(b[i])
}

fn lower_byte(b: u8) -> (r: u8)
    ensures
        r == ascii_lower(b),
{
    if 65 <= b && b <= 90 {
        b + 32
    } else {
        b
    }
}

/// Compares two byte strings, ignoring the case of ASCII letters.
pub fn bytes_eq_ignore_case(a: &[u8], b: &[u8]) -> (r: bool)
    ensures
        r == eq_ignore_ascii_case(a@, b@),
{
    if a.len() != b.len() {
        return false;
    }
    let mut i: usize = 0;
    while i < a.len()
        invariant
            i <= a@.len(),
            a@.len() == b@.len(),
            forall|j: int| 0 <= j < i ==> ascii_lower(#[trigger] a@[j]) == ascii_lower(b@[j]),
        decreases a@.len() - i,
    {
        if lower_byte(a[i]) != lower_byte(b[i]) {
            return false;
        }
        i = i + 1;
    }
    true
}

impl EndpointType {
    /// The lower-case name of the source, as bytes.
    pub open spec fn spec_name(self) -> Seq<u8> {
        match self {
            EndpointType::Denial => seq![100u8, 101, 110, 105, 97, 108],
            EndpointType::Executable => seq![101u8, 120, 101, 99, 117, 116, 97, 98, 108, 101],
            EndpointType::Intrusion => seq![105u8, 110, 116, 114, 117, 115, 105, 111, 110],
            EndpointType::Misuse => seq![109u8, 105, 115, 117, 115, 101],
            EndpointType::Other => seq![111u8, 116, 104, 101, 114],
            EndpointType::Probing => seq![112u8, 114, 111, 98, 105, 110, 103],
            EndpointType::Unauthorized => seq![117u8, 110, 97, 117, 116, 104, 111, 114, 105, 122, 101, 100],
        }
    }

    /// The lower-case name of the source, as text.
    pub open spec fn spec_label(self) -> Seq<char> {
        match self {
            EndpointType::Denial => seq!['d', 'e', 'n', 'i', 'a', 'l'],
            EndpointType::Executable => seq!['e', 'x', 'e', 'c', 'u', 't', 'a', 'b', 'l', 'e'],
            EndpointType::Intrusion => seq!['i', 'n', 't', 'r', 'u', 's', 'i', 'o', 'n'],
            EndpointType::Misuse => seq!['m', 'i', 's', 'u', 's', 'e'],
            EndpointType::Other => seq!['o', 't', 'h', 'e', 'r'],
            EndpointType::Probing => seq!['p', 'r', 'o', 'b', 'i', 'n', 'g'],
            EndpointType::Unauthorized => seq!['u', 'n', 'a', 'u', 't', 'h', 'o', 'r', 'i', 'z', 'e', 'd'],
        }
    }

    fn name_bytes(self) -> (r: Vec<u8>)
        ensures
            r@ == self.spec_name(),
    {
        let r = match self {
            EndpointType::Denial => vec![100u8, 101, 110, 105, 97, 108],
            EndpointType::Executable => vec![101u8, 120, 101, 99, 117, 116, 97, 98, 108, 101],
            EndpointType::Intrusion => vec![105u8, 110, 116, 114, 117, 115, 105, 111, 110],
            EndpointType::Misuse => vec![109u8, 105, 115, 117, 115, 101],
            EndpointType::Other => vec![111u8, 116, 104, 101, 114],
            EndpointType::Probing => vec![112u8, 114, 111, 98, 105, 110, 103],
            EndpointType::Unauthorized => vec![117u8, 110, 97, 117, 116, 104, 111, 114, 105, 122, 101, 100],
        };
        proof {
            assert(r@ =~= self.spec_name());
        }
        r
    }

    /// The lower-case name of the source, the value of a record's `type` field.
    pub fn label(self) -> (r: &'static str)
        ensures
            r@ == self.spec_label(),
    {
        match self {
            EndpointType::Denial => {
                proof { reveal_strlit("denial"); }
                "denial"
            },
            EndpointType::Executable => {
                proof { reveal_strlit("executable"); }
                "executable"
            },
            EndpointType::Intrusion => {
                proof { reveal_strlit("intrusion"); }
                "intrusion"
            },
            EndpointType::Misuse => {
                proof { reveal_strlit("misuse"); }
                "misuse"
            },
            EndpointType::Other => {
                proof { reveal_strlit("other"); }
                "other"
            },
            EndpointType::Probing => {
                proof { reveal_strlit("probing"); }
                "probing"
            },
            EndpointType::Unauthorized => {
                proof { reveal_strlit("unauthorized"); }
                "unauthorized"
            },
        }
    }

    /// Every source, in declaration order.
    pub open spec fn all() -> Seq<EndpointType> {
        seq![
            EndpointType::Denial,
            EndpointType::Executable,
            EndpointType::Intrusion,
            EndpointType::Misuse,
            EndpointType::Other,
            EndpointType::Probing,
            EndpointType::Unauthorized,
        ]
    }

    /// Parses a source name, ignoring ASCII case; unknown names give `None`.
    pub fn from_name(s: &str) -> (r: Option<EndpointType>)
        ensures
            match r {
                Some(e) => eq_ignore_ascii_case(s.spec_bytes(), e.spec_name()),
                None => forall|e: EndpointType| !eq_ignore_ascii_case(s.spec_bytes(), #[trigger] e.spec_name()),
            },
    {
        let bytes = s.as_bytes();
        let all = vec![
            EndpointType::Denial,
            EndpointType::Executable,
            EndpointType::Intrusion,
            EndpointType::Misuse,
            EndpointType::Other,
            EndpointType::Probing,
            EndpointType::Unauthorized,
        ];
        assert(all@ =~= Self::all());
        let mut i: usize = 0;
        while i < all.len()
            invariant
                all@ == Self::all(),
                i <= all@.len(),
                bytes@ == s.spec_bytes(),
                forall|j: int| 0 <= j < i ==> !eq_ignore_ascii_case(s.spec_bytes(), #[trigger] all@[j].spec_name()),
            decreases all@.len() - i,
        {
            let e = all[i];
            let name = e.name_bytes();
            if bytes_eq_ignore_case(bytes, name.as_slice()) {
                return Some(e);
            }
            i = i + 1;
        }
        proof {
            assert forall|e: EndpointType| !eq_ignore_ascii_case(s.spec_bytes(), #[trigger] e.spec_name()) by {
                let k: int = match e {
                    EndpointType::Denial => 0,
                    EndpointType::Executable => 1,
                    EndpointType::Intrusion => 2,
                    EndpointType::Misuse => 3,
                    EndpointType::Other => 4,
                    EndpointType::Probing => 5,
                    EndpointType::Unauthorized => 6,
                };
                assert(all@[k] == e);
            }
        }
        None
    }
}

impl std::str::FromStr for EndpointType {
    type Err = ();

    fn from_str(s: &str) -> Result<EndpointType, ()> {
        match EndpointType::from_name(s) {
            Some(e) => Ok(e),
            None => Err(()),
        }
    }
}

} // verus!
