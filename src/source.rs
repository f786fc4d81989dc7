use vstd::prelude::*;
use crate::event::{JsonTokenOwned, TokenSource};

verus! {

/// A token source over events that are already in memory; after the last one it
/// reports the end of input. It records each progress report it is told.
pub struct VecSource {
    events: Vec<JsonTokenOwned>,
    pos: usize,
    reports: Vec<(u64, u64)>,
}

impl VecSource {
    pub fn new(events: Vec<JsonTokenOwned>) -> (r: VecSource)
        ensures
            r.remaining() == events@,
            r.spec_reports() == Seq::<(u64, u64)>::empty(),
    {
        VecSource { events, pos: 0, reports: Vec::new() }
    }

    /// The events not handed out yet.
    pub closed spec fn remaining(&self) -> Seq<JsonTokenOwned> {
        if self.pos <= self.events.len() {
            self.events@.skip(self.pos as int)
        } else {
            Seq::empty()
        }
    }

    /// Hands out the next event, or the end of input once all are handed out.
    pub fn pop_event(&mut self) -> (r: JsonTokenOwned)
        ensures
            old(self).remaining().len() > 0 ==> r == old(self).remaining()[0]
                && final(self).remaining() == old(self).remaining().drop_first(),
            old(self).remaining().len() == 0 ==> r == JsonTokenOwned::JsEof
                && final(self).remaining() == old(self).remaining(),
    {
        if self.pos < self.events.len() {
            let t = copy_token(&self.events[self.pos]);
            proof {
                assert(self.events@.skip(self.pos as int)[0] == self.events@[self.pos as int]);
                assert(self.events@.skip(self.pos as int + 1) =~= self.events@.skip(
                    self.pos as int,
                ).drop_first());
            }
            self.pos = self.pos + 1;
            t
        } else {
            JsonTokenOwned::JsEof
        }
    }

    /// The progress reports received, as (events, matches).
    pub closed spec fn spec_reports(&self) -> Seq<(u64, u64)> {
        self.reports@
    }

    /// The progress reports received, as (events, matches).
    pub fn reports(&self) -> (r: &Vec<(u64, u64)>)
        ensures
            r@ == self.spec_reports(),
    {
        &self.reports
    }
}

/// A copy of an event.
pub fn copy_token(t: &JsonTokenOwned) -> (r: JsonTokenOwned)
    ensures
        r == *t,
{
    match t {
        JsonTokenOwned::StartObject => JsonTokenOwned::StartObject,
        JsonTokenOwned::EndObject => JsonTokenOwned::EndObject,
        JsonTokenOwned::StartArray => JsonTokenOwned::StartArray,
        JsonTokenOwned::EndArray => JsonTokenOwned::EndArray,
        JsonTokenOwned::JsNull => JsonTokenOwned::JsNull,
        JsonTokenOwned::JsBoolean(b) => JsonTokenOwned::JsBoolean(*b),
        JsonTokenOwned::JsNumber(x) => JsonTokenOwned::JsNumber(x.clone()),
        JsonTokenOwned::JsString(x) => JsonTokenOwned::JsString(x.clone()),
        JsonTokenOwned::JsKey(x) => JsonTokenOwned::JsKey(x.clone()),
        JsonTokenOwned::JsEof => JsonTokenOwned::JsEof,
    }
}

impl TokenSource for VecSource {
    fn next_event(&mut self) -> Result<JsonTokenOwned, String> {
        Ok(self.pop_event())
    }

    fn report_progress(&mut self, events: u64, matches: u64) {
        self.reports.push((events, matches));
    }
}

} // verus!
