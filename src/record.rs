//! Resource records as a closed sum type, their type tags and the DNS
//! response codes.
use vstd::prelude::*;

verus! {

/// The record types this server stores or answers for.
#[derive(PartialEq, Eq, Structural, Clone, Copy, Debug, Hash)]
pub enum RecordType {
    A,
    Ns,
    CName,
    Soa,
    Ptr,
    HInfo,
    Mx,
    Txt,
    Aaaa,
    Svcb,
    Https,
    Ixfr,
    Axfr,
    Any,
    /// A type this server has no strategy for, by its wire code.
    Other(u16),
}

impl RecordType {
    /// The numeric type code of the wire format.
    pub open spec fn spec_code(self) -> u16 {
        match self {
            RecordType::A => 1,
            RecordType::Ns => 2,
            RecordType::CName => 5,
            RecordType::Soa => 6,
            RecordType::Ptr => 12,
            RecordType::HInfo => 13,
            RecordType::Mx => 15,
            RecordType::Txt => 16,
            RecordType::Aaaa => 28,
            RecordType::Svcb => 64,
            RecordType::Https => 65,
            RecordType::Ixfr => 251,
            RecordType::Axfr => 252,
            RecordType::Any => 255,
            RecordType::Other(c) => c,
        }
    }

    /// The code is that of one of the named types.
    pub open spec fn is_known_code(code: u16) -> bool {
        code == 1 || code == 2 || code == 5 || code == 6 || code == 12 || code == 13 || code == 15
            || code == 16 || code == 28 || code == 64 || code == 65 || code == 251 || code == 252
            || code == 255
    }

    pub fn code(&self) -> (r: u16)
        ensures
            r == self.spec_code(),
    {
        match self {
            RecordType::A => 1,
            RecordType::Ns => 2,
            RecordType::CName => 5,
            RecordType::Soa => 6,
            RecordType::Ptr => 12,
            RecordType::HInfo => 13,
            RecordType::Mx => 15,
            RecordType::Txt => 16,
            RecordType::Aaaa => 28,
            RecordType::Svcb => 64,
            RecordType::Https => 65,
            RecordType::Ixfr => 251,
            RecordType::Axfr => 252,
            RecordType::Any => 255,
            RecordType::Other(c) => *c,
        }
    }

    /// The type with the given wire code: a named type when there is one,
    /// else `Other`.
    pub fn from_code(code: u16) -> (r: RecordType)
        ensures
            r.spec_code() == code,
            (r is Other) <==> !Self::is_known_code(code),
    {
        match code {
            1 => RecordType::A,
            2 => RecordType::Ns,
            5 => RecordType::CName,
            6 => RecordType::Soa,
            12 => RecordType::Ptr,
            13 => RecordType::HInfo,
            15 => RecordType::Mx,
            16 => RecordType::Txt,
            28 => RecordType::Aaaa,
            64 => RecordType::Svcb,
            65 => RecordType::Https,
            251 => RecordType::Ixfr,
            252 => RecordType::Axfr,
            255 => RecordType::Any,
            _ => RecordType::Other(code),
        }
    }
}

/// The type-specific part of a record.
#[allow(inconsistent_fields)]
#[derive(Clone, Debug, PartialEq, Eq)]
pub enum RData {
    A { address: u32 },
    Aaaa { address: u128 },
    Ns { server: String },
    CName { target: String },
    Soa {
        mname: String,
        rname: String,
        serial: u32,
        refresh: u32,
        retry: u32,
        expire: u32,
        minimum: u32,
    },
    Ptr { target: String },
    HInfo { cpu: String, os: String },
    Mx { priority: u16, server: String },
    Txt { text: String },
    Svcb { priority: u16, target: String },
    Https { priority: u16, target: String },
}

/// One resource record: class, time to live and data. Records are never
/// changed once stored; they are copied into responses.
#[derive(Clone, Debug, PartialEq, Eq)]
pub struct Record {
    pub class: u16,
    pub ttl: u32,
    pub data: RData,
}

/// The class code of the Internet class.
pub const CLASS_IN: u16 = 1;

impl Record {
    pub open spec fn spec_type(self) -> RecordType {
        match self.data {
            RData::A { .. } => RecordType::A,
            RData::Aaaa { .. } => RecordType::Aaaa,
            RData::Ns { .. } => RecordType::Ns,
            RData::CName { .. } => RecordType::CName,
            RData::Soa { .. } => RecordType::Soa,
            RData::Ptr { .. } => RecordType::Ptr,
            RData::HInfo { .. } => RecordType::HInfo,
            RData::Mx { .. } => RecordType::Mx,
            RData::Txt { .. } => RecordType::Txt,
            RData::Svcb { .. } => RecordType::Svcb,
            RData::Https { .. } => RecordType::Https,
        }
    }

    pub fn get_type(&self) -> (t: RecordType)
        ensures
            t == self.spec_type(),
    {
        match &self.data {
            RData::A { .. } => RecordType::A,
            RData::Aaaa { .. } => RecordType::Aaaa,
            RData::Ns { .. } => RecordType::Ns,
            RData::CName { .. } => RecordType::CName,
            RData::Soa { .. } => RecordType::Soa,
            RData::Ptr { .. } => RecordType::Ptr,
            RData::HInfo { .. } => RecordType::HInfo,
            RData::Mx { .. } => RecordType::Mx,
            RData::Txt { .. } => RecordType::Txt,
            RData::Svcb { .. } => RecordType::Svcb,
            RData::Https { .. } => RecordType::Https,
        }
    }

    /// An exact copy of the record.
    pub fn duplicate(&self) -> (r: Record)
        ensures
            r == *self,
    {
        let data = match &self.data {
            RData::A { address } => RData::A { address: *address },
            RData::Aaaa { address } => RData::Aaaa { address: *address },
            RData::Ns { server } => RData::Ns { server: server.clone() },
            RData::CName { target } => RData::CName { target: target.clone() },
            RData::Soa { mname, rname, serial, refresh, retry, expire, minimum } => RData::Soa {
                mname: mname.clone(),
                rname: rname.clone(),
                serial: *serial,
                refresh: *refresh,
                retry: *retry,
                expire: *expire,
                minimum: *minimum,
            },
            RData::Ptr { target } => RData::Ptr { target: target.clone() },
            RData::HInfo { cpu, os } => RData::HInfo { cpu: cpu.clone(), os: os.clone() },
            RData::Mx { priority, server } => RData::Mx { priority: *priority, server: server.clone() },
            RData::Txt { text } => RData::Txt { text: text.clone() },
            RData::Svcb { priority, target } => RData::Svcb { priority: *priority, target: target.clone() },
            RData::Https { priority, target } => RData::Https { priority: *priority, target: target.clone() },
        };
        Record { class: self.class, ttl: self.ttl, data }
    }

    /// The serial number of an SOA record.
    pub open spec fn spec_serial(self) -> Option<u32> {
        match self.data {
            RData::Soa { serial, .. } => Some(serial),
            _ => None,
        }
    }

    pub fn get_serial(&self) -> (r: Option<u32>)
        ensures
            r == self.spec_serial(),
    {
        match &self.data {
            RData::Soa { serial, .. } => Some(*serial),
            _ => None,
        }
    }

    /// This record with its SOA serial replaced; other records are unchanged.
    pub open spec fn spec_with_serial(self, s: u32) -> Record {
        match self.data {
            RData::Soa { mname, rname, refresh, retry, expire, minimum, .. } => Record {
                class: self.class,
                ttl: self.ttl,
                data: RData::Soa { mname, rname, serial: s, refresh, retry, expire, minimum },
            },
            _ => self,
        }
    }

    pub fn with_serial(&self, s: u32) -> (r: Record)
        ensures
            r == self.spec_with_serial(s),
    {
        let mut r = self.duplicate();
        if let RData::Soa { mname, rname, refresh, retry, expire, minimum, .. } = &self.data {
            r = Record {
                class: self.class,
                ttl: self.ttl,
                data: RData::Soa {
                    mname: mname.clone(),
                    rname: rname.clone(),
                    serial: s,
                    refresh: *refresh,
                    retry: *retry,
                    expire: *expire,
                    minimum: *minimum,
                },
            };
        }
        r
    }

    /// The CNAME target of a CNAME record.
    pub open spec fn spec_cname_target(self) -> Seq<char> {
        match self.data {
            RData::CName { target } => target@,
            _ => Seq::empty(),
        }
    }

    /// The server name that a referral names: the target of an NS record.
    pub open spec fn spec_ns_server(self) -> Option<String> {
        match self.data {
            RData::Ns { server } => Some(server),
            _ => None,
        }
    }

    /// The host name embedded in an answer that deserves glue: the exchange
    /// of an MX record or the target of an HTTPS record.
    pub open spec fn spec_answer_host(self) -> Option<String> {
        match self.data {
            RData::Mx { server, .. } => Some(server),
            RData::Https { target, .. } => Some(target),
            _ => None,
        }
    }

    pub fn ns_server(&self) -> (r: Option<&String>)
        ensures
            match r {
                Some(s) => self.spec_ns_server() == Some(*s),
                None => self.spec_ns_server() is None,
            },
    {
        match &self.data {
            RData::Ns { server } => Some(server),
            _ => None,
        }
    }

    pub fn answer_host(&self) -> (r: Option<&String>)
        ensures
            match r {
                Some(s) => self.spec_answer_host() == Some(*s),
                None => self.spec_answer_host() is None,
            },
    {
        match &self.data {
            RData::Mx { server, .. } => Some(server),
            RData::Https { target, .. } => Some(target),
            _ => None,
        }
    }

    pub fn cname_target(&self) -> (r: Option<&String>)
        ensures
            match r {
                Some(s) => self.spec_type() == RecordType::CName && s@ == self.spec_cname_target(),
                None => self.spec_type() != RecordType::CName,
            },
    {
        match &self.data {
            RData::CName { target } => Some(target),
            _ => None,
        }
    }
}

/// Response codes of the DNS header.
#[derive(PartialEq, Eq, Structural, Clone, Copy, Debug, Hash)]
pub enum ResponseCode {
    NoError,
    FormErr,
    ServFail,
    NxDomain,
    NotImp,
    Refused,
}

impl ResponseCode {
    pub open spec fn spec_code(self) -> u8 {
        match self {
            ResponseCode::NoError => 0,
            ResponseCode::FormErr => 1,
            ResponseCode::ServFail => 2,
            ResponseCode::NxDomain => 3,
            ResponseCode::NotImp => 4,
            ResponseCode::Refused => 5,
        }
    }

    pub fn code(&self) -> (r: u8)
        ensures
            r == self.spec_code(),
    {
        match self {
            ResponseCode::NoError => 0,
            ResponseCode::FormErr => 1,
            ResponseCode::ServFail => 2,
            ResponseCode::NxDomain => 3,
            ResponseCode::NotImp => 4,
            ResponseCode::Refused => 5,
        }
    }
}

} // verus!
