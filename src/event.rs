//! The question being answered and the response accumulator that a
//! resolution strategy fills.
use vstd::prelude::*;
use crate::record::{Record, RecordType};

verus! {

/// One question: name, class and requested type.
#[derive(Debug)]
pub struct Query {
    pub name: String,
    pub class: u16,
    pub rtype: RecordType,
}

/// An answer, authority or additional entry: owner name and record.
pub type Entry = (String, Record);

/// The owner names and records of a section, with names as characters.
pub open spec fn entries(v: Seq<Entry>) -> Seq<(Seq<char>, Record)> {
    v.map_values(|e: Entry| (e.0@, e.1))
}

pub proof fn lemma_entries_push(v: Seq<Entry>, e: Entry)
    ensures
        entries(v.push(e)) == entries(v).push((e.0@, e.1)),
{
    assert(entries(v.push(e)) =~= entries(v).push((e.0@, e.1)));
}

/// The response to one question as it is built: the authoritative flag,
/// the flag that asks the transport not to send it, the authority records
/// the request carried, and the three response sections.
#[derive(Debug)]
pub struct RequestEvent {
    pub query: Query,
    pub authoritative: bool,
    pub prevent_default: bool,
    pub request_authority: Vec<Entry>,
    pub answers: Vec<Entry>,
    pub authority: Vec<Entry>,
    pub additional: Vec<Entry>,
}

impl RequestEvent {
    pub fn new(query: Query, request_authority: Vec<Entry>) -> (r: RequestEvent)
        ensures
            r.query == query,
            r.request_authority == request_authority,
            !r.authoritative,
            !r.prevent_default,
            r.answers@.len() == 0,
            r.authority@.len() == 0,
            r.additional@.len() == 0,
    {
        RequestEvent {
            query,
            authoritative: false,
            prevent_default: false,
            request_authority,
            answers: Vec::new(),
            authority: Vec::new(),
            additional: Vec::new(),
        }
    }

    pub fn get_query(&self) -> (r: &Query)
        ensures
            *r == self.query,
    {
        &self.query
    }

    pub fn set_authoritative(&mut self, authoritative: bool)
        ensures
            final(self).authoritative == authoritative,
            final(self).query == old(self).query,
            final(self).prevent_default == old(self).prevent_default,
            final(self).request_authority == old(self).request_authority,
            final(self).answers == old(self).answers,
            final(self).authority == old(self).authority,
            final(self).additional == old(self).additional,
    {
        self.authoritative = authoritative;
    }

    pub fn is_authoritative(&self) -> (r: bool)
        ensures
            r == self.authoritative,
    {
        self.authoritative
    }

    pub fn prevent_default(&mut self)
        ensures
            final(self).prevent_default,
            final(self).query == old(self).query,
            final(self).authoritative == old(self).authoritative,
            final(self).request_authority == old(self).request_authority,
            final(self).answers == old(self).answers,
            final(self).authority == old(self).authority,
            final(self).additional == old(self).additional,
    {
        self.prevent_default = true;
    }

    pub fn is_prevent_default(&self) -> (r: bool)
        ensures
            r == self.prevent_default,
    {
        self.prevent_default
    }

    pub fn get_request_authority_records(&self) -> (r: &Vec<Entry>)
        ensures
            *r == self.request_authority,
    {
        &self.request_authority
    }

    pub fn has_answers(&self) -> (r: bool)
        ensures
            r == (self.answers@.len() > 0),
    {
        self.answers.len() > 0
    }

    pub fn get_answers(&self) -> (r: &Vec<Entry>)
        ensures
            *r == self.answers,
    {
        &self.answers
    }

    pub fn total_answers(&self) -> (r: usize)
        ensures
            r == self.answers@.len(),
    {
        self.answers.len()
    }

    pub fn has_authority_records(&self) -> (r: bool)
        ensures
            r == (self.authority@.len() > 0),
    {
        self.authority.len() > 0
    }

    pub fn get_authority_records(&self) -> (r: &Vec<Entry>)
        ensures
            *r == self.authority,
    {
        &self.authority
    }

    pub fn total_authority_records(&self) -> (r: usize)
        ensures
            r == self.authority@.len(),
    {
        self.authority.len()
    }

    pub fn has_additional_records(&self) -> (r: bool)
        ensures
            r == (self.additional@.len() > 0),
    {
        self.additional.len() > 0
    }

    pub fn get_additional_records(&self) -> (r: &Vec<Entry>)
        ensures
            *r == self.additional,
    {
        &self.additional
    }

    pub fn total_additional_records(&self) -> (r: usize)
        ensures
            r == self.additional@.len(),
    {
        self.additional.len()
    }

    pub fn add_answer(&mut self, name: &str, record: Record)
        ensures
            entries(final(self).answers@) == entries(old(self).answers@).push((name@, record)),
            final(self).authority == old(self).authority,
            final(self).additional == old(self).additional,
            final(self).authoritative == old(self).authoritative,
            final(self).query == old(self).query,
            final(self).prevent_default == old(self).prevent_default,
            final(self).request_authority == old(self).request_authority,
    {
        let e = (name.to_owned(), record);
        proof {
            lemma_entries_push(self.answers@, e);
        }
        self.answers.push(e);
    }

    pub fn add_authority_record(&mut self, name: &str, record: Record)
        ensures
            entries(final(self).authority@) == entries(old(self).authority@).push((name@, record)),
            final(self).answers == old(self).answers,
            final(self).additional == old(self).additional,
            final(self).authoritative == old(self).authoritative,
            final(self).query == old(self).query,
            final(self).prevent_default == old(self).prevent_default,
            final(self).request_authority == old(self).request_authority,
    {
        let e = (name.to_owned(), record);
        proof {
            lemma_entries_push(self.authority@, e);
        }
        self.authority.push(e);
    }

    pub fn add_additional_record(&mut self, name: &str, record: Record)
        ensures
            entries(final(self).additional@) == entries(old(self).additional@).push((name@, record)),
            final(self).answers == old(self).answers,
            final(self).authority == old(self).authority,
            final(self).authoritative == old(self).authoritative,
            final(self).query == old(self).query,
            final(self).prevent_default == old(self).prevent_default,
            final(self).request_authority == old(self).request_authority,
    {
        let e = (name.to_owned(), record);
        proof {
            lemma_entries_push(self.additional@, e);
        }
        self.additional.push(e);
    }
}

} // verus!
