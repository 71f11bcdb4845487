//! The closed enumerations of RFC 1035 section 3.2: resource-record TYPE and
//! QTYPE, CLASS and QCLASS, with their fixed wire values.

use vstd::prelude::*;

verus! {

/// The TYPE codes usable in resource records.
#[derive(Debug, Clone, Copy, PartialEq, Eq, Structural)]
pub enum ResourceRecordType {
    /// A host address
    A,
    /// An authoritative name server
    Ns,
    /// A mail destination (obsolete)
    Md,
    /// A mail forwarder (obsolete)
    Mf,
    /// The canonical name for an alias
    Cname,
    /// Marks the start of a zone of authority
    Soa,
    /// A mailbox domain name (experimental)
    Mb,
    /// A mail group member (experimental)
    Mg,
    /// A mail rename domain name (experimental)
    Mr,
    /// A null RR (experimental)
    Null,
    /// A well known service description
    Wks,
    /// A domain name pointer
    Ptr,
    /// Host information
    Hinfo,
    /// Mailbox or mail list information
    Minfo,
    /// Mail exchange
    Mx,
    /// Text strings
    Txt,
}

/// The wire value of a TYPE code.
pub open spec fn rr_type_code(t: ResourceRecordType) -> u16 {
    match t {
        ResourceRecordType::A => 1,
        ResourceRecordType::Ns => 2,
        ResourceRecordType::Md => 3,
        ResourceRecordType::Mf => 4,
        ResourceRecordType::Cname => 5,
        ResourceRecordType::Soa => 6,
        ResourceRecordType::Mb => 7,
        ResourceRecordType::Mg => 8,
        ResourceRecordType::Mr => 9,
        ResourceRecordType::Null => 10,
        ResourceRecordType::Wks => 11,
        ResourceRecordType::Ptr => 12,
        ResourceRecordType::Hinfo => 13,
        ResourceRecordType::Minfo => 14,
        ResourceRecordType::Mx => 15,
        ResourceRecordType::Txt => 16,
    }
}

/// The TYPE code a wire value decodes to, if any.
pub open spec fn rr_type_of(value: u16) -> Option<ResourceRecordType> {
    if value == 1 {
        Some(ResourceRecordType::A)
    } else if value == 2 {
        Some(ResourceRecordType::Ns)
    } else if value == 3 {
        Some(ResourceRecordType::Md)
    } else if value == 4 {
        Some(ResourceRecordType::Mf)
    } else if value == 5 {
        Some(ResourceRecordType::Cname)
    } else if value == 6 {
        Some(ResourceRecordType::Soa)
    } else if value == 7 {
        Some(ResourceRecordType::Mb)
    } else if value == 8 {
        Some(ResourceRecordType::Mg)
    } else if value == 9 {
        Some(ResourceRecordType::Mr)
    } else if value == 10 {
        Some(ResourceRecordType::Null)
    } else if value == 11 {
        Some(ResourceRecordType::Wks)
    } else if value == 12 {
        Some(ResourceRecordType::Ptr)
    } else if value == 13 {
        Some(ResourceRecordType::Hinfo)
    } else if value == 14 {
        Some(ResourceRecordType::Minfo)
    } else if value == 15 {
        Some(ResourceRecordType::Mx)
    } else if value == 16 {
        Some(ResourceRecordType::Txt)
    } else {
        None
    }
}

impl ResourceRecordType {
    pub fn code(&self) -> (r: u16)
        ensures
            r == rr_type_code(*self),
    {
        match self {
            ResourceRecordType::A => 1,
            ResourceRecordType::Ns => 2,
            ResourceRecordType::Md => 3,
            ResourceRecordType::Mf => 4,
            ResourceRecordType::Cname => 5,
            ResourceRecordType::Soa => 6,
            ResourceRecordType::Mb => 7,
            ResourceRecordType::Mg => 8,
            ResourceRecordType::Mr => 9,
            ResourceRecordType::Null => 10,
            ResourceRecordType::Wks => 11,
            ResourceRecordType::Ptr => 12,
            ResourceRecordType::Hinfo => 13,
            ResourceRecordType::Minfo => 14,
            ResourceRecordType::Mx => 15,
            ResourceRecordType::Txt => 16,
        }
    }

    pub fn try_from(value: u16) -> (r: Result<Self, ()>)
        ensures
            r == match rr_type_of(value) {
                Some(t) => Ok::<ResourceRecordType, ()>(t),
                None => Err::<ResourceRecordType, ()>(()),
            },
    {
        match value {
            1 => Ok(ResourceRecordType::A),
            2 => Ok(ResourceRecordType::Ns),
            3 => Ok(ResourceRecordType::Md),
            4 => Ok(ResourceRecordType::Mf),
            5 => Ok(ResourceRecordType::Cname),
            6 => Ok(ResourceRecordType::Soa),
            7 => Ok(ResourceRecordType::Mb),
            8 => Ok(ResourceRecordType::Mg),
            9 => Ok(ResourceRecordType::Mr),
            10 => Ok(ResourceRecordType::Null),
            11 => Ok(ResourceRecordType::Wks),
            12 => Ok(ResourceRecordType::Ptr),
            13 => Ok(ResourceRecordType::Hinfo),
            14 => Ok(ResourceRecordType::Minfo),
            15 => Ok(ResourceRecordType::Mx),
            16 => Ok(ResourceRecordType::Txt),
            _ => Err(()),
        }
    }
}

/// Every TYPE code decodes back to itself.
pub proof fn lemma_rr_type_roundtrip(t: ResourceRecordType)
    ensures
        rr_type_of(rr_type_code(t)) == Some(t),
{
}

/// The QTYPE codes usable in questions: a superset of the TYPE codes.
#[derive(Debug, Clone, Copy, PartialEq, Eq, Structural)]
pub enum Qtype {
    /// A host address
    A,
    /// An authoritative name server
    Ns,
    /// A mail destination (obsolete)
    Md,
    /// A mail forwarder (obsolete)
    Mf,
    /// The canonical name for an alias
    Cname,
    /// Marks the start of a zone of authority
    Soa,
    /// A mailbox domain name (experimental)
    Mb,
    /// A mail group member (experimental)
    Mg,
    /// A mail rename domain name (experimental)
    Mr,
    /// A null RR (experimental)
    Null,
    /// A well known service description
    Wks,
    /// A domain name pointer
    Ptr,
    /// Host information
    Hinfo,
    /// Mailbox or mail list information
    Minfo,
    /// Mail exchange
    Mx,
    /// Text strings
    Txt,
    /// A request for a transfer of an entire zone
    Axfr,
    /// A request for mailbox-related records
    Mailb,
    /// A request for mail agent RRs (obsolete)
    Maila,
    /// Written `*` in the specification: a request for all records
    All,
}

/// The wire value of a QTYPE code.
pub open spec fn qtype_code(q: Qtype) -> u16 {
    match q {
        Qtype::A => 1,
        Qtype::Ns => 2,
        Qtype::Md => 3,
        Qtype::Mf => 4,
        Qtype::Cname => 5,
        Qtype::Soa => 6,
        Qtype::Mb => 7,
        Qtype::Mg => 8,
        Qtype::Mr => 9,
        Qtype::Null => 10,
        Qtype::Wks => 11,
        Qtype::Ptr => 12,
        Qtype::Hinfo => 13,
        Qtype::Minfo => 14,
        Qtype::Mx => 15,
        Qtype::Txt => 16,
        Qtype::Axfr => 252,
        Qtype::Mailb => 253,
        Qtype::Maila => 254,
        Qtype::All => 255,
    }
}

/// The QTYPE code a wire value decodes to, if any.
pub open spec fn qtype_of(value: u16) -> Option<Qtype> {
    if 1 <= value <= 16 {
        match rr_type_of(value) {
            Some(t) => Some(qtype_of_rr_type(t)),
            None => None,
        }
    } else if value == 252 {
        Some(Qtype::Axfr)
    } else if value == 253 {
        Some(Qtype::Mailb)
    } else if value == 254 {
        Some(Qtype::Maila)
    } else if value == 255 {
        Some(Qtype::All)
    } else {
        None
    }
}

/// Every TYPE is a valid QTYPE.
pub open spec fn qtype_of_rr_type(t: ResourceRecordType) -> Qtype {
    match t {
        ResourceRecordType::A => Qtype::A,
        ResourceRecordType::Ns => Qtype::Ns,
        ResourceRecordType::Md => Qtype::Md,
        ResourceRecordType::Mf => Qtype::Mf,
        ResourceRecordType::Cname => Qtype::Cname,
        ResourceRecordType::Soa => Qtype::Soa,
        ResourceRecordType::Mb => Qtype::Mb,
        ResourceRecordType::Mg => Qtype::Mg,
        ResourceRecordType::Mr => Qtype::Mr,
        ResourceRecordType::Null => Qtype::Null,
        ResourceRecordType::Wks => Qtype::Wks,
        ResourceRecordType::Ptr => Qtype::Ptr,
        ResourceRecordType::Hinfo => Qtype::Hinfo,
        ResourceRecordType::Minfo => Qtype::Minfo,
        ResourceRecordType::Mx => Qtype::Mx,
        ResourceRecordType::Txt => Qtype::Txt,
    }
}

impl Qtype {
    pub fn code(&self) -> (r: u16)
        ensures
            r == qtype_code(*self),
    {
        match self {
            Qtype::A => 1,
            Qtype::Ns => 2,
            Qtype::Md => 3,
            Qtype::Mf => 4,
            Qtype::Cname => 5,
            Qtype::Soa => 6,
            Qtype::Mb => 7,
            Qtype::Mg => 8,
            Qtype::Mr => 9,
            Qtype::Null => 10,
            Qtype::Wks => 11,
            Qtype::Ptr => 12,
            Qtype::Hinfo => 13,
            Qtype::Minfo => 14,
            Qtype::Mx => 15,
            Qtype::Txt => 16,
            Qtype::Axfr => 252,
            Qtype::Mailb => 253,
            Qtype::Maila => 254,
            Qtype::All => 255,
        }
    }

    pub fn try_from(value: u16) -> (r: Result<Self, ()>)
        ensures
            r == match qtype_of(value) {
                Some(q) => Ok::<Qtype, ()>(q),
                None => Err::<Qtype, ()>(()),
            },
    {
        match value {
            1 => Ok(Qtype::A),
            2 => Ok(Qtype::Ns),
            3 => Ok(Qtype::Md),
            4 => Ok(Qtype::Mf),
            5 => Ok(Qtype::Cname),
            6 => Ok(Qtype::Soa),
            7 => Ok(Qtype::Mb),
            8 => Ok(Qtype::Mg),
            9 => Ok(Qtype::Mr),
            10 => Ok(Qtype::Null),
            11 => Ok(Qtype::Wks),
            12 => Ok(Qtype::Ptr),
            13 => Ok(Qtype::Hinfo),
            14 => Ok(Qtype::Minfo),
            15 => Ok(Qtype::Mx),
            16 => Ok(Qtype::Txt),
            252 => Ok(Qtype::Axfr),
            253 => Ok(Qtype::Mailb),
            254 => Ok(Qtype::Maila),
            255 => Ok(Qtype::All),
            _ => Err(()),
        }
    }
}

/// Every QTYPE code decodes back to itself.
pub proof fn lemma_qtype_roundtrip(q: Qtype)
    ensures
        qtype_of(qtype_code(q)) == Some(q),
{
}

/// The CLASS codes usable in resource records.
#[derive(Debug, Clone, Copy, PartialEq, Eq, Structural)]
pub enum ResourceRecordClass {
    /// The internet
    In,
    /// The CSNET class (obsolete)
    Cs,
    /// The CHAOS class
    Ch,
    /// Hesiod
    Hs,
}

/// The wire value of a CLASS code.
pub open spec fn rr_class_code(c: ResourceRecordClass) -> u16 {
    match c {
        ResourceRecordClass::In => 1,
        ResourceRecordClass::Cs => 2,
        ResourceRecordClass::Ch => 3,
        ResourceRecordClass::Hs => 4,
    }
}

/// The CLASS code a wire value decodes to, if any.
pub open spec fn rr_class_of(value: u16) -> Option<ResourceRecordClass> {
    if value == 1 {
        Some(ResourceRecordClass::In)
    } else if value == 2 {
        Some(ResourceRecordClass::Cs)
    } else if value == 3 {
        Some(ResourceRecordClass::Ch)
    } else if value == 4 {
        Some(ResourceRecordClass::Hs)
    } else {
        None
    }
}

impl ResourceRecordClass {
    pub fn code(&self) -> (r: u16)
        ensures
            r == rr_class_code(*self),
    {
        match self {
            ResourceRecordClass::In => 1,
            ResourceRecordClass::Cs => 2,
            ResourceRecordClass::Ch => 3,
            ResourceRecordClass::Hs => 4,
        }
    }

    pub fn try_from(value: u16) -> (r: Result<Self, ()>)
        ensures
            r == match rr_class_of(value) {
                Some(c) => Ok::<ResourceRecordClass, ()>(c),
                None => Err::<ResourceRecordClass, ()>(()),
            },
    {
        match value {
            1 => Ok(ResourceRecordClass::In),
            2 => Ok(ResourceRecordClass::Cs),
            3 => Ok(ResourceRecordClass::Ch),
            4 => Ok(ResourceRecordClass::Hs),
            _ => Err(()),
        }
    }
}

/// Every CLASS code decodes back to itself.
pub proof fn lemma_rr_class_roundtrip(c: ResourceRecordClass)
    ensures
        rr_class_of(rr_class_code(c)) == Some(c),
{
}

/// The QCLASS codes usable in questions: a superset of the CLASS codes.
#[derive(Debug, Clone, Copy, PartialEq, Eq, Structural)]
pub enum ResourceRecordQClass {
    /// The internet
    In,
    /// The CSNET class (obsolete)
    Cs,
    /// The CHAOS class
    Ch,
    /// Hesiod
    Hs,
    /// Any class
    All,
}

/// The wire value of a QCLASS code.
pub open spec fn qclass_code(c: ResourceRecordQClass) -> u16 {
    match c {
        ResourceRecordQClass::In => 1,
        ResourceRecordQClass::Cs => 2,
        ResourceRecordQClass::Ch => 3,
        ResourceRecordQClass::Hs => 4,
        ResourceRecordQClass::All => 255,
    }
}

/// The QCLASS code a wire value decodes to, if any.
pub open spec fn qclass_of(value: u16) -> Option<ResourceRecordQClass> {
    if value == 1 {
        Some(ResourceRecordQClass::In)
    } else if value == 2 {
        Some(ResourceRecordQClass::Cs)
    } else if value == 3 {
        Some(ResourceRecordQClass::Ch)
    } else if value == 4 {
        Some(ResourceRecordQClass::Hs)
    } else if value == 255 {
        Some(ResourceRecordQClass::All)
    } else {
        None
    }
}

impl ResourceRecordQClass {
    pub fn code(&self) -> (r: u16)
        ensures
            r == qclass_code(*self),
    {
        match self {
            ResourceRecordQClass::In => 1,
            ResourceRecordQClass::Cs => 2,
            ResourceRecordQClass::Ch => 3,
            ResourceRecordQClass::Hs => 4,
            ResourceRecordQClass::All => 255,
        }
    }

    pub fn try_from(value: u16) -> (r: Result<Self, ()>)
        ensures
            r == match qclass_of(value) {
                Some(c) => Ok::<ResourceRecordQClass, ()>(c),
                None => Err::<ResourceRecordQClass, ()>(()),
            },
    {
        match value {
            1 => Ok(ResourceRecordQClass::In),
            2 => Ok(ResourceRecordQClass::Cs),
            3 => Ok(ResourceRecordQClass::Ch),
            4 => Ok(ResourceRecordQClass::Hs),
            255 => Ok(ResourceRecordQClass::All),
            _ => Err(()),
        }
    }
}

/// Every QCLASS code decodes back to itself.
pub proof fn lemma_qclass_roundtrip(c: ResourceRecordQClass)
    ensures
        qclass_of(qclass_code(c)) == Some(c),
{
}

} // verus!
