use vstd::prelude::*;

verus! {

/// The road classes that carry traffic in the network.
#[derive(Clone, Copy, Debug, PartialEq, Eq, Structural)]
pub enum HighwayType {
    Motorway,
    Trunk,
    Primary,
    Secondary,
    Tertiary,
    MotorwayLink,
    TrunkLink,
    PrimaryLink,
    SecondaryLink,
    TertiaryLink,
    Road,
    Unclassified,
    Residential,
    Unsurfaced,
    LivingStreet,
    Service,
}

/// The road class that a `highway` tag value names, if it names one.
pub open spec fn highway_of(s: Seq<char>) -> Option<HighwayType> {
    if s == "motorway"@ {
        Some(HighwayType::Motorway)
    } else if s == "trunk"@ {
        Some(HighwayType::Trunk)
    } else if s == "primary"@ {
        Some(HighwayType::Primary)
    } else if s == "secondary"@ {
        Some(HighwayType::Secondary)
    } else if s == "tertiary"@ {
        Some(HighwayType::Tertiary)
    } else if s == "motorway_link"@ {
        Some(HighwayType::MotorwayLink)
    } else if s == "trunk_link"@ {
        Some(HighwayType::TrunkLink)
    } else if s == "primary_link"@ {
        Some(HighwayType::PrimaryLink)
    } else if s == "secondary_link"@ {
        Some(HighwayType::SecondaryLink)
    } else if s == "tertiary_link"@ {
        Some(HighwayType::TertiaryLink)
    } else if s == "road"@ {
        Some(HighwayType::Road)
    } else if s == "unclassified"@ {
        Some(HighwayType::Unclassified)
    } else if s == "residential"@ {
        Some(HighwayType::Residential)
    } else if s == "unsurfaced"@ {
        Some(HighwayType::Unsurfaced)
    } else if s == "living_street"@ {
        Some(HighwayType::LivingStreet)
    } else if s == "service"@ {
        Some(HighwayType::Service)
    } else {
        None
    }
}

/// The default speed of each road class, in km/h.
pub open spec fn speed_kmh_of(h: HighwayType) -> u64 {
    match h {
        HighwayType::Motorway | HighwayType::Trunk => 110,
        HighwayType::Primary => 70,
        HighwayType::Secondary => 60,
        HighwayType::Tertiary | HighwayType::MotorwayLink | HighwayType::TrunkLink
        | HighwayType::PrimaryLink | HighwayType::SecondaryLink | HighwayType::TertiaryLink => 50,
        HighwayType::Road | HighwayType::Unclassified => 40,
        HighwayType::Residential | HighwayType::Unsurfaced => 30,
        HighwayType::LivingStreet | HighwayType::Service => 10,
    }
}

/// Whether two strings hold the same characters.
pub fn str_equal(a: &str, b: &str) -> (r: bool)
    ensures
        r == (a@ == b@),
{
    let n = a.unicode_len();
    if n != b.unicode_len() {
        return false;
    }
    let mut i: usize = 0;
    while i < n
        invariant
            n == a@.len(),
            n == b@.len(),
            i <= n,
            forall|j: int| 0 <= j < i ==> a@[j] == b@[j],
        decreases n - i,
    {
        if a.get_char(i) != b.get_char(i) {
            return false;
        }
        i = i + 1;
    }
    proof {
        assert(a@ =~= b@);
    }
    true
}

impl HighwayType {
    /// The road class named by a `highway` tag value, or `None`.
    pub fn from_str(s: &str) -> (r: Option<Self>)
        ensures
            r == highway_of(s@),
    {
        if str_equal(s, "motorway") {
            Some(HighwayType::Motorway)
        } else if str_equal(s, "trunk") {
            Some(HighwayType::Trunk)
        } else if str_equal(s, "primary") {
            Some(HighwayType::Primary)
        } else if str_equal(s, "secondary") {
            Some(HighwayType::Secondary)
        } else if str_equal(s, "tertiary") {
            Some(HighwayType::Tertiary)
        } else if str_equal(s, "motorway_link") {
            Some(HighwayType::MotorwayLink)
        } else if str_equal(s, "trunk_link") {
            Some(HighwayType::TrunkLink)
        } else if str_equal(s, "primary_link") {
            Some(HighwayType::PrimaryLink)
        } else if str_equal(s, "secondary_link") {
            Some(HighwayType::SecondaryLink)
        } else if str_equal(s, "tertiary_link") {
            Some(HighwayType::TertiaryLink)
        } else if str_equal(s, "road") {
            Some(HighwayType::Road)
        } else if str_equal(s, "unclassified") {
            Some(HighwayType::Unclassified)
        } else if str_equal(s, "residential") {
            Some(HighwayType::Residential)
        } else if str_equal(s, "unsurfaced") {
            Some(HighwayType::Unsurfaced)
        } else if str_equal(s, "living_street") {
            Some(HighwayType::LivingStreet)
        } else if str_equal(s, "service") {
            Some(HighwayType::Service)
        } else {
            None
        }
    }

    /// The default speed of the road class, in km/h.
    pub fn speed_kmh(&self) -> (r: u64)
        ensures
            r == speed_kmh_of(*self),
    {
        match self {
            HighwayType::Motorway | HighwayType::Trunk => 110,
            HighwayType::Primary => 70,
            HighwayType::Secondary => 60,
            HighwayType::Tertiary | HighwayType::MotorwayLink | HighwayType::TrunkLink
            | HighwayType::PrimaryLink | HighwayType::SecondaryLink | HighwayType::TertiaryLink => 50,
            HighwayType::Road | HighwayType::Unclassified => 40,
            HighwayType::Residential | HighwayType::Unsurfaced => 30,
            HighwayType::LivingStreet | HighwayType::Service => 10,
        }
    }
}

/// A reference from a way to one of its nodes.
#[derive(Clone, Copy, Debug, PartialEq, Eq, Structural)]
pub struct OsmNd {
    pub ref_: u64,
}

/// A key/value tag of a way.
#[derive(Debug)]
pub struct OsmTag {
    pub key: String,
    pub value: String,
}

/// A way of a map extract: its node references, in order, and its tags.
#[derive(Debug)]
pub struct OsmWay {
    pub id: u64,
    pub nodes: Vec<OsmNd>,
    pub tags: Vec<OsmTag>,
}

/// The value of the first tag whose key is `key`.
pub open spec fn tag_value(tags: Seq<OsmTag>, key: Seq<char>) -> Option<Seq<char>>
    decreases tags.len(),
{
    if tags.len() == 0 {
        None
    } else if tags[0].key@ == key {
        Some(tags[0].value@)
    } else {
        tag_value(tags.drop_first(), key)
    }
}

impl OsmWay {
    /// The road class named by the way's `highway` tag, if any.
    pub fn highway_type(&self) -> (r: Option<HighwayType>)
        ensures
            r == match tag_value(self.tags@, "highway"@) {
                Some(v) => highway_of(v),
                None => None,
            },
    {
        match self.get_tag_value("highway") {
            Some(v) => HighwayType::from_str(v),
            None => None,
        }
    }

    /// Whether the way is tagged `oneway=yes`.
    pub fn is_oneway(&self) -> (r: bool)
        ensures
            r == (tag_value(self.tags@, "oneway"@) == Some("yes"@)),
    {
        match self.get_tag_value("oneway") {
            Some(v) => str_equal(v, "yes"),
            None => false,
        }
    }

    /// The value of the way's first tag with key `key`.
    pub fn get_tag_value(&self, key: &str) -> (r: Option<&str>)
        ensures
            r is Some <==> tag_value(self.tags@, key@) is Some,
            r is Some ==> r.unwrap()@ == tag_value(self.tags@, key@).unwrap(),
    {
        let mut i: usize = 0;
        proof {
            assert(self.tags@.subrange(0, self.tags@.len() as int) =~= self.tags@);
        }
        while i < self.tags.len()
            invariant
                i <= self.tags@.len(),
                tag_value(self.tags@, key@) == tag_value(self.tags@.subrange(i as int, self.tags@.len() as int), key@),
            decreases self.tags@.len() - i,
        {
            let tag = &self.tags[i];
            proof {
                let rest = self.tags@.subrange(i as int, self.tags@.len() as int);
                assert(rest[0] == self.tags@[i as int]);
                assert(rest.drop_first() =~= self.tags@.subrange(i as int + 1, self.tags@.len() as int));
            }
            if str_equal(tag.key.as_str(), key) {
                return Some(tag.value.as_str());
            }
            i = i + 1;
        }
        proof {
            assert(self.tags@.subrange(i as int, self.tags@.len() as int).len() == 0);
        }
        None
    }
}

/// The number that a string of decimal digits stands for.
pub open spec fn digits_value(s: Seq<char>) -> int
    decreases s.len(),
{
    if s.len() == 0 {
        0
    } else {
        digits_value(s.drop_last()) * 10 + (s.last() as int - '0' as int)
    }
}

pub open spec fn all_digits(s: Seq<char>) -> bool {
    forall|i: int| 0 <= i < s.len() ==> '0' <= #[trigger] s[i] <= '9'
}

/// The digits of an unsigned number's text, after an optional `+`.
pub open spec fn unsigned_digits(s: Seq<char>) -> Seq<char> {
    if s.len() > 0 && s[0] == '+' {
        s.drop_first()
    } else {
        s
    }
}

/// The `u64` that a text denotes: an optional `+`, then at least one
/// decimal digit, for a value that fits.
pub open spec fn parsed_u64(s: Seq<char>) -> Option<u64> {
    let t = unsigned_digits(s);
    if t.len() > 0 && all_digits(t) && digits_value(t) <= u64::MAX {
        Some(digits_value(t) as u64)
    } else {
        None
    }
}

proof fn lemma_digits_value_grows(s: Seq<char>, i: int)
    requires
        0 <= i <= s.len(),
        all_digits(s),
    ensures
        0 <= digits_value(s.take(i)) <= digits_value(s),
    decreases s.len() - i,
{
    if i < s.len() {
        let longer = s.take(i + 1);
        assert(longer.drop_last() =~= s.take(i));
        assert(longer.last() == s[i]);
        lemma_digits_value_grows(s, i + 1);
    } else {
        assert(s.take(i) =~= s);
        lemma_digits_value_nonneg(s);
    }
}

proof fn lemma_digits_value_nonneg(s: Seq<char>)
    requires
        all_digits(s),
    ensures
        digits_value(s) >= 0,
    decreases s.len(),
{
    if s.len() > 0 {
        assert(s.last() == s[s.len() - 1]);
        lemma_digits_value_nonneg(s.drop_last());
    }
}

/// Reads a node identifier written in decimal, as map extracts write them.
pub fn de_u64_from_str(s: &str) -> (r: Option<u64>)
    ensures
        r == parsed_u64(s@),
{
    let n = s.unicode_len();
    let mut i: usize = 0;
    if n > 0 && s.get_char(0) == '+' {
        i = 1;
    }
    let ghost t = unsigned_digits(s@);
    let ghost first = i;
    proof {
        assert(t =~= s@.subrange(first as int, n as int));
    }
    if i == n {
        return None;
    }
    let mut value: u64 = 0;
    while i < n
        invariant
            n == s@.len(),
            first <= i <= n,
            first < n,
            t == s@.subrange(first as int, n as int),
            t == unsigned_digits(s@),
            all_digits(t.take(i - first)),
            value == digits_value(t.take(i - first)),
        decreases n - i,
    {
        let c = s.get_char(i);
        let ghost k = i - first;
        proof {
            assert(t[k] == c);
            assert(t.take(k + 1).drop_last() =~= t.take(k));
            assert(t.take(k + 1).last() == c);
        }
        if c < '0' || c > '9' {
            proof {
                assert(!('0' <= t[k] <= '9'));
            }
            return None;
        }
        let digit = (c as u32 - '0' as u32) as u64;
        proof {
            assert forall|j: int| 0 <= j < k + 1 implies '0' <= #[trigger] t.take(k + 1)[j] <= '9' by {
                if j < k {
                    assert(t.take(k + 1)[j] == t.take(k)[j]);
                }
            }
        }
        match value.checked_mul(10) {
            Some(v) => match v.checked_add(digit) {
                Some(w) => {
                    value = w;
                },
                None => {
                    proof {
                        lemma_none_when_too_large(t, k + 1);
                    }
                    return None;
                },
            },
            None => {
                proof {
                    lemma_digits_value_nonneg(t.take(k));
                    lemma_none_when_too_large(t, k + 1);
                }
                return None;
            },
        }
        i = i + 1;
    }
    proof {
        assert(t.take(n - first) =~= t);
    }
    Some(value)
}

/// Once a prefix of the digits exceeds `u64::MAX`, the text denotes no `u64`.
proof fn lemma_none_when_too_large(t: Seq<char>, k: int)
    requires
        0 < k <= t.len(),
        all_digits(t.take(k)),
        digits_value(t.take(k)) > u64::MAX,
    ensures
        t.len() == 0 || !all_digits(t) || digits_value(t) > u64::MAX,
{
    if all_digits(t) {
        lemma_digits_value_grows(t, k);
    }
}

} // verus!
