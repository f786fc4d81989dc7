use vstd::prelude::*;
use crate::event::{Config, JsonTokenOwned, ParseError, TokenSource};
use crate::grammar::{
    array_frame, begins_value, lemma_open_concat, lemma_open_single, lemma_value_balanced, open_containers,
    opens_container, complete, dead, document_events, lemma_array_child_dead,
    lemma_bad_start_dead, lemma_object_bad_dead, lemma_object_child_dead, lemma_value_frame,
    starts_with, field_hits, is_eof, lemma_array_child_fails, lemma_array_end,
    lemma_array_start, lemma_array_step, lemma_object_bad, lemma_object_child_fails,
    lemma_object_end, lemma_object_start, lemma_object_step, object_frame, value_events,
};
use crate::value::{
    elems_view, fields_view, insert_field, keys_unique, lemma_array_view, lemma_object_view,
    Json, JsonValue,
};

verus! {

/// The parse cursor: the token source, the current event (one event of lookahead),
/// the running event and match counters, and the configuration.
pub struct State<S: TokenSource> {
    parser: S,
    token: JsonTokenOwned,
    cnt: u64,
    matches: u64,
    config: Config,
    /// Every event loaded into the cursor so far, in order.
    pulled: Ghost<Seq<JsonTokenOwned>>,
    /// Whether the source has answered a pull with an error.
    failed: Ghost<bool>,
    /// The progress reports due so far, as (events, matches).
    reports: Ghost<Seq<(u64, u64)>>,
}

/// Whether reaching `count` events calls for a progress report.
pub open spec fn report_due(count: u64, interval: u64) -> bool {
    interval > 0 && count % interval == 0
}

impl<S: TokenSource> State<S> {
    pub closed spec fn spec_token(&self) -> JsonTokenOwned {
        self.token
    }

    pub closed spec fn spec_events(&self) -> u64 {
        self.cnt
    }

    pub closed spec fn spec_matches(&self) -> u64 {
        self.matches
    }

    pub closed spec fn spec_config(&self) -> Config {
        self.config
    }

    /// The events loaded into the cursor so far (by [`State::load`], which
    /// [`State::next_token`] calls with the source's answers).
    pub closed spec fn history(&self) -> Seq<JsonTokenOwned> {
        self.pulled@
    }

    /// Whether the source has answered a pull with an error.
    pub closed spec fn source_failed(&self) -> bool {
        self.failed@
    }

    /// The progress reports handed to the source so far, as (events, matches).
    pub closed spec fn progress_reports(&self) -> Seq<(u64, u64)> {
        self.reports@
    }

    /// The token source held.
    pub closed spec fn spec_source(&self) -> S {
        self.parser
    }

    /// The current event is the last one loaded, the event counter counts the events
    /// loaded, and matches never outnumber events.
    pub closed spec fn wf(&self) -> bool {
        &&& self.cnt == count_events(self.pulled@)
        &&& self.matches <= self.cnt
        &&& self.pulled@.len() > 0 ==> self.token == self.pulled@.last()
    }

    /// A cursor over `parser` that has pulled nothing yet.
    pub fn new(parser: S, config: Config) -> (r: Self)
        ensures
            r.wf(),
            r.spec_token() == JsonTokenOwned::JsNull,
            r.spec_events() == 0,
            r.spec_matches() == 0,
            r.spec_config() == config,
            r.history() == Seq::<JsonTokenOwned>::empty(),
            !r.source_failed(),
            r.progress_reports() == Seq::<(u64, u64)>::empty(),
            r.spec_source() == parser,
    {
        State {
            parser,
            token: JsonTokenOwned::JsNull,
            cnt: 0,
            matches: 0,
            config,
            pulled: Ghost(Seq::empty()),
            failed: Ghost(false),
            reports: Ghost(Seq::empty()),
        }
    }

    /// Takes the source's answer to a pull into the cursor. An error of the source
    /// becomes a lexical error; an event is loaded and counted (the end of input is
    /// not counted), unless the counter is full. On success, tells whether a progress
    /// report is due, and records it.
    pub fn load(&mut self, answer: Result<JsonTokenOwned, String>) -> (r: Result<bool, ParseError>)
        requires
            old(self).wf(),
        ensures
            final(self).wf(),
            final(self).spec_config() == old(self).spec_config(),
            final(self).spec_matches() == old(self).spec_matches(),
            final(self).spec_source() == old(self).spec_source(),
            match answer {
                Err(m) => {
                    &&& r == Err::<bool, ParseError>(ParseError::Lexical(m))
                    &&& final(self).source_failed()
                    &&& final(self).history() == old(self).history()
                    &&& final(self).spec_events() == old(self).spec_events()
                    &&& final(self).spec_token() == old(self).spec_token()
                    &&& final(self).progress_reports() == old(self).progress_reports()
                },
                Ok(t) => if !is_eof(t) && old(self).spec_events() == u64::MAX {
                    &&& r == Err::<bool, ParseError>(ParseError::CounterOverflow)
                    &&& final(self).source_failed() == old(self).source_failed()
                    &&& final(self).history() == old(self).history()
                    &&& final(self).spec_events() == old(self).spec_events()
                    &&& final(self).spec_token() == old(self).spec_token()
                    &&& final(self).progress_reports() == old(self).progress_reports()
                } else {
                    let n = final(self).spec_events();
                    let due = !is_eof(t) && report_due(n, old(self).spec_config().progress_interval);
                    &&& r == Ok::<bool, ParseError>(due)
                    &&& final(self).source_failed() == old(self).source_failed()
                    &&& final(self).spec_token() == t
                    &&& final(self).history() == old(self).history().push(t)
                    &&& n == if is_eof(t) {
                        old(self).spec_events() as int
                    } else {
                        old(self).spec_events() + 1
                    }
                    &&& final(self).progress_reports() == if due {
                        old(self).progress_reports().push((n, old(self).spec_matches()))
                    } else {
                        old(self).progress_reports()
                    }
                },
            },
    {
        match answer {
            Err(msg) => {
                self.failed = Ghost(true);
                Err(ParseError::Lexical(msg))
            },
            Ok(tok) => {
                let eof = match tok {
                    JsonTokenOwned::JsEof => true,
                    _ => false,
                };
                if !eof {
                    if self.cnt == u64::MAX {
                        return Err(ParseError::CounterOverflow);
                    }
                    self.cnt = self.cnt + 1;
                }
                self.token = tok;
                proof {
                    assert(self.pulled@.push(self.token).drop_last() =~= self.pulled@);
                }
                self.pulled = Ghost(self.pulled@.push(self.token));
                let due = !eof && self.config.progress_interval > 0 && self.cnt
                    % self.config.progress_interval == 0;
                if due {
                    self.reports = Ghost(self.reports@.push((self.cnt, self.matches)));
                }
                Ok(due)
            },
        }
    }

    /// Pulls the next event into the cursor through [`State::load`], and hands the
    /// source the counts when a progress report is due. Whatever the source answers,
    /// an error is lexical exactly when the source failed, a counter overflow only
    /// when the counter is full, and success loads and counts one event.
    pub fn next_token(&mut self) -> (r: Result<(), ParseError>)
        requires
            old(self).wf(),
        ensures
            final(self).wf(),
            final(self).spec_config() == old(self).spec_config(),
            final(self).spec_matches() == old(self).spec_matches(),
            match r {
                Ok(()) => {
                    let n = final(self).spec_events();
                    let due = !is_eof(final(self).spec_token()) && report_due(
                        n,
                        old(self).spec_config().progress_interval,
                    );
                    &&& final(self).history() == old(self).history().push(final(self).spec_token())
                    &&& n == if is_eof(final(self).spec_token()) {
                        old(self).spec_events() as int
                    } else {
                        old(self).spec_events() + 1
                    }
                    &&& final(self).source_failed() == old(self).source_failed()
                    &&& final(self).progress_reports() == if due {
                        old(self).progress_reports().push((n, old(self).spec_matches()))
                    } else {
                        old(self).progress_reports()
                    }
                },
                Err(e) => {
                    &&& final(self).history() == old(self).history()
                    &&& final(self).spec_events() == old(self).spec_events()
                    &&& final(self).spec_token() == old(self).spec_token()
                    &&& final(self).progress_reports() == old(self).progress_reports()
                    &&& !(e is Protocol)
                    &&& !(e is DepthExceeded)
                    &&& (e is Lexical ==> final(self).source_failed())
                    &&& (e is CounterOverflow ==> old(self).spec_events() == u64::MAX
                        && final(self).source_failed() == old(self).source_failed())
                },
            },
    {
        let answer = self.parser.next_event();
        match self.load(answer) {
            Err(e) => Err(e),
            Ok(due) => {
                if due {
                    self.parser.report_progress(self.cnt, self.matches);
                }
                Ok(())
            },
        }
    }

    /// The event counter counts the events loaded.
    pub proof fn lemma_counted(&self)
        requires
            self.wf(),
        ensures
            self.spec_events() == count_events(self.history()),
    {
    }

    /// The number of events consumed so far (`JsEof` is not counted).
    pub fn events(&self) -> (r: u64)
        ensures
            r == self.spec_events(),
    {
        self.cnt
    }

    /// The number of completed objects that satisfied the predicate so far.
    pub fn matches(&self) -> (r: u64)
        ensures
            r == self.spec_matches(),
    {
        self.matches
    }

    /// The token source.
    pub fn source(&self) -> (r: &S)
        ensures
            *r == self.spec_source(),
    {
        &self.parser
    }

    /// The current event.
    pub fn token(&self) -> (r: &JsonTokenOwned)
        ensures
            *r == self.spec_token(),
    {
        &self.token
    }
}

/// The number of events in `h` other than the end of input.
pub open spec fn count_events(h: Seq<JsonTokenOwned>) -> nat
    decreases h.len(),
{
    if h.len() == 0 {
        0
    } else {
        count_events(h.drop_last()) + if is_eof(h.last()) {
            0nat
        } else {
            1nat
        }
    }
}

/// The events a parse that started in `a` and stopped in `b` has seen: the event
/// current in `a`, then every event loaded into the cursor since.
pub open spec fn consumed<S: TokenSource>(a: State<S>, b: State<S>) -> Seq<JsonTokenOwned> {
    seq![a.spec_token()] + b.history().skip(a.history().len() as int)
}

/// `b` is a later state of the cursor `a`: same configuration, history extended,
/// counters grown, and no more new matches than new events.
pub open spec fn advanced<S: TokenSource>(a: State<S>, b: State<S>) -> bool {
    &&& b.wf()
    &&& b.spec_config() == a.spec_config()
    &&& a.history().len() <= b.history().len()
    &&& b.history().subrange(0, a.history().len() as int) == a.history()
    &&& a.spec_events() <= b.spec_events()
    &&& a.spec_matches() <= b.spec_matches()
    &&& b.spec_matches() - a.spec_matches() <= b.spec_events() - a.spec_events()
    &&& (a.source_failed() ==> b.source_failed())
}

/// What a parse that started in `a` and stopped in `b` with result `r` guarantees: on
/// success the events seen form exactly one value, followed by the new current event,
/// and the match counter grew by the matches inside it; on failure the events seen do
/// not form a value followed by another event.
pub open spec fn parse_post<S: TokenSource>(
    a: State<S>,
    b: State<S>,
    keep: bool,
    depth: int,
    r: Result<JsonValue, ParseError>,
) -> bool {
    let s = consumed(a, b);
    let c = a.spec_config();
    &&& advanced(a, b)
    &&& match r {
        Ok(v) => {
            &&& value_events(c, s, keep) == Some(
                (v@, (s.len() - 1) as nat, (b.spec_matches() - a.spec_matches()) as nat),
            )
            &&& b.history().len() > a.history().len()
        },
        Err(e) => {
            &&& !complete(value_events(c, s, keep), s.len())
            &&& (e is Protocol ==> dead(c, s, keep))
            &&& (e is Lexical ==> b.source_failed())
            &&& (e is CounterOverflow ==> b.spec_events() == u64::MAX)
            &&& (e is DepthExceeded ==> open_containers(s) > depth)
        },
    }
    &&& (r is Ok && !is_eof(b.spec_token()) ==> b.spec_events() > a.spec_events())
}

/// A well-formed state is a later state of itself, having seen only its current event.
proof fn lemma_advanced_refl<S: TokenSource>(a: State<S>)
    requires
        a.wf(),
    ensures
        advanced(a, a),
        consumed(a, a) == seq![a.spec_token()],
{
    assert(a.history().subrange(0, a.history().len() as int) =~= a.history());
    assert(consumed(a, a) =~= seq![a.spec_token()]);
}

/// Two parses in a row: what the first saw, less its final lookahead, then what the
/// second saw.
proof fn lemma_chain<S: TokenSource>(a: State<S>, b: State<S>, d: State<S>)
    requires
        advanced(a, b),
        advanced(b, d),
        b.history().len() > a.history().len(),
    ensures
        advanced(a, d),
        consumed(a, d) == consumed(a, b).drop_last() + consumed(b, d),
{
    let ha = a.history();
    let hb = b.history();
    let hd = d.history();
    assert(hd.subrange(0, ha.len() as int) =~= ha) by {
        assert forall|i: int| 0 <= i < ha.len() implies hd.subrange(0, ha.len() as int)[i]
            == ha[i] by {
            assert(hd.subrange(0, hb.len() as int)[i] == hb[i]);
            assert(hb.subrange(0, ha.len() as int)[i] == ha[i]);
        }
    }
    assert(b.spec_token() == hb.last());
    assert(consumed(a, d) =~= consumed(a, b).drop_last() + consumed(b, d)) by {
        assert forall|i: int| 0 <= i < hb.len() implies #[trigger] hd[i] == hb[i] by {
            assert(hd.subrange(0, hb.len() as int)[i] == hb[i]);
        }
    }
}

/// One more event loaded extends what was seen by that event.
proof fn lemma_pull<S: TokenSource>(a: State<S>, b: State<S>, d: State<S>)
    requires
        advanced(a, b),
        d.wf(),
        d.spec_config() == b.spec_config(),
        d.spec_matches() == b.spec_matches(),
        d.spec_events() >= b.spec_events(),
        d.history() == b.history().push(d.spec_token()),
        d.source_failed() == b.source_failed(),
    ensures
        advanced(a, d),
        consumed(a, d) == consumed(a, b).push(d.spec_token()),
{
    let ha = a.history();
    let hb = b.history();
    assert(d.history().subrange(0, ha.len() as int) =~= ha) by {
        assert forall|i: int| 0 <= i < ha.len() implies d.history().subrange(
            0,
            ha.len() as int,
        )[i] == ha[i] by {
            assert(hb.subrange(0, ha.len() as int)[i] == ha[i]);
        }
    }
    assert(consumed(a, d) =~= consumed(a, b).push(d.spec_token()));
}

fn token_is_end_object(t: &JsonTokenOwned) -> (r: bool)
    ensures
        r == (*t is EndObject),
{
    match t {
        JsonTokenOwned::EndObject => true,
        _ => false,
    }
}

fn token_is_end_array(t: &JsonTokenOwned) -> (r: bool)
    ensures
        r == (*t is EndArray),
{
    match t {
        JsonTokenOwned::EndArray => true,
        _ => false,
    }
}

/// Parses the value that starts at the current event and leaves the cursor on the
/// event just after it.
///
/// Fields of objects are kept when `store` holds, or below a key equal to the
/// retention trigger; elements of arrays are kept when `store` holds. Scalars are
/// always returned. Every completed object whose direct field named by the
/// predicate holds the target string adds one to the match counter. At most `depth`
/// containers may be open at once within the value; a deeper one is a fatal error.
pub fn parse<S: TokenSource>(state: &mut State<S>, store: bool, depth: u64) -> (r: Result<
    JsonValue,
    ParseError,
>)
    requires
        old(state).wf(),
    ensures
        parse_post(*old(state), *final(state), store, depth as int, r),
        !begins_value(old(state).spec_token()) ==> r == Err::<JsonValue, ParseError>(
            ParseError::Protocol,
        ) && final(state).history() == old(state).history(),
        opens_container(old(state).spec_token()) && depth == 0 ==> r == Err::<
            JsonValue,
            ParseError,
        >(ParseError::DepthExceeded) && final(state).history() == old(state).history(),
    decreases u64::MAX - old(state).spec_events(), 1int,
{
    let ghost a = *state;
    let v = match state.token() {
        JsonTokenOwned::StartObject => {
            if depth == 0 {
                proof {
                    lemma_advanced_refl(a);
                    assert(value_events(a.spec_config(), seq![a.spec_token()], store) is None);
                    lemma_open_single(a.spec_token());
                }
                return Err(ParseError::DepthExceeded);
            }
            return parse_object(state, store, depth - 1);
        },
        JsonTokenOwned::StartArray => {
            if depth == 0 {
                proof {
                    lemma_advanced_refl(a);
                    assert(value_events(a.spec_config(), seq![a.spec_token()], store) is None);
                    lemma_open_single(a.spec_token());
                }
                return Err(ParseError::DepthExceeded);
            }
            return parse_array(state, store, depth - 1);
        },
        JsonTokenOwned::JsString(t) => JsonValue::String(t.clone()),
        JsonTokenOwned::JsNumber(t) => JsonValue::Number(t.clone()),
        JsonTokenOwned::JsBoolean(b) => JsonValue::Boolean(*b),
        JsonTokenOwned::JsNull => JsonValue::Null,
        _ => {
            proof {
                lemma_advanced_refl(a);
                lemma_bad_start_dead(a.spec_config(), a.spec_token(), store);
            }
            return Err(ParseError::Protocol);
        },
    };
    proof {
        lemma_advanced_refl(a);
    }
    let ghost b = *state;
    match state.next_token() {
        Err(e) => {
            return Err(e);
        },
        Ok(()) => {},
    }
    proof {
        lemma_pull(a, b, *state);
    }
    Ok(v)
}

/// Parses an object whose '{' is the current event.
#[verifier::rlimit(50)]
fn parse_object<S: TokenSource>(state: &mut State<S>, store: bool, depth: u64) -> (r: Result<
    JsonValue,
    ParseError,
>)
    requires
        old(state).wf(),
        old(state).spec_token() is StartObject,
    ensures
        parse_post(*old(state), *final(state), store, depth + 1, r),
    decreases u64::MAX - old(state).spec_events(), 0int,
{
    let ghost a = *state;
    let ghost c = state.spec_config();
    let ghost c0 = state.spec_events();
    let ghost m0 = state.spec_matches();
    proof {
        lemma_advanced_refl(a);
    }
    match state.next_token() {
        Err(e) => {
            return Err(e);
        },
        Ok(()) => {},
    }
    let ghost mut pre: Seq<JsonTokenOwned> = seq![JsonTokenOwned::StartObject];
    proof {
        lemma_pull(a, a, *state);
        lemma_object_start(c, pre, store);
        lemma_open_single(pre[0]);
        assert(pre =~= seq![pre[0]]);
    }
    let mut map: Vec<(String, JsonValue)> = Vec::new();
    let mut is_match = false;
    proof {
        assert(fields_view(map) =~= Seq::<(Seq<char>, Json)>::empty());
    }
    while !token_is_end_object(state.token())
        invariant
            a == *old(state),
            a.wf(),
            advanced(a, *state),
            c == a.spec_config(),
            c0 == a.spec_events(),
            m0 == a.spec_matches(),
            state.history().len() > a.history().len(),
            consumed(a, *state) == pre.push(state.spec_token()),
            open_containers(pre) == 1,
            object_frame(
                c,
                pre,
                store,
                fields_view(map),
                is_match,
                (state.spec_matches() - m0) as nat,
            ),
            keys_unique(fields_view(map)),
            state.spec_matches() - m0 + (if is_match {
                1int
            } else {
                0int
            }) <= state.spec_events() - c0,
            !is_eof(state.spec_token()) ==> state.spec_events() > c0,
        decreases u64::MAX - state.spec_events(), (if is_eof(state.spec_token()) {
            0int
        } else {
            1int
        }),
    {
        let ghost m = (state.spec_matches() - m0) as nat;
        let key: String = match state.token() {
            JsonTokenOwned::JsKey(k) => k.clone(),
            _ => {
                proof {
                    lemma_object_bad_dead(
                        c,
                        pre,
                        store,
                        fields_view(map),
                        is_match,
                        m,
                        state.spec_token(),
                    );
                    lemma_object_bad(
                        c,
                        pre,
                        store,
                        fields_view(map),
                        is_match,
                        m,
                        state.spec_token(),
                    );
                }
                return Err(ParseError::Protocol);
            },
        };
        let ghost k = key;
        let ghost at_key = *state;
        match state.next_token() {
            Err(e) => {
                proof {
                    lemma_object_child_fails(
                        c,
                        pre,
                        store,
                        fields_view(map),
                        is_match,
                        m,
                        k,
                        Seq::empty(),
                    );
                    assert(consumed(a, *state) =~= pre.push(JsonTokenOwned::JsKey(k))
                        + Seq::empty());
                }
                return Err(e);
            },
            Ok(()) => {},
        }
        proof {
            lemma_pull(a, at_key, *state);
        }
        let ghost b = *state;
        proof {
            assert(!is_eof(at_key.spec_token()));
            assert(state.spec_events() > c0);
        }
        let store_new = store || key == state.config.retention_trigger_key;
        let res = parse(state, store_new, depth);
        let ghost child = consumed(b, *state);
        proof {
            lemma_chain(a, b, *state);
            assert(consumed(a, b).drop_last() =~= pre.push(JsonTokenOwned::JsKey(k)));
        }
        match res {
            Err(e) => {
                proof {
                    lemma_object_child_fails(
                        c,
                        pre,
                        store,
                        fields_view(map),
                        is_match,
                        m,
                        k,
                        child,
                    );
                    let kk = seq![JsonTokenOwned::JsKey(k)];
                    assert(pre.push(JsonTokenOwned::JsKey(k)) =~= pre + kk);
                    lemma_open_single(JsonTokenOwned::JsKey(k));
                    lemma_open_concat(pre, kk);
                    lemma_open_concat(pre.push(JsonTokenOwned::JsKey(k)), child);
                    if e is Protocol {
                        lemma_object_child_dead(
                            c,
                            pre,
                            store,
                            fields_view(map),
                            is_match,
                            m,
                            k,
                            child,
                        );
                    }
                }
                return Err(e);
            },
            Ok(field_value) => {
                let ghost n = (child.len() - 1) as nat;
                proof {
                    lemma_object_step(
                        c,
                        pre,
                        store,
                        fields_view(map),
                        is_match,
                        m,
                        k,
                        child,
                    );
                    assert(child[0] == b.spec_token());
                }
                let hit_here = (store || !state.config.predicate_requires_retention) && key
                    == state.config.predicate_field_key && match &field_value {
                    JsonValue::String(t) => *t == state.config.predicate_target,
                    _ => false,
                };
                proof {
                    assert(hit_here == field_hits(c, store, k@, field_value@));
                }
                is_match = is_match || hit_here;
                if store {
                    insert_field(&mut map, key, field_value);
                }
                proof {
                    let pre2 = pre.push(JsonTokenOwned::JsKey(k)) + child.subrange(0, n as int);
                    let kk = seq![JsonTokenOwned::JsKey(k)];
                    assert(pre.push(JsonTokenOwned::JsKey(k)) =~= pre + kk);
                    lemma_open_single(JsonTokenOwned::JsKey(k));
                    lemma_open_concat(pre, kk);
                    lemma_value_balanced(c, child, store_new);
                    assert(child.take(n as int) == child.subrange(0, n as int));
                    lemma_open_concat(pre.push(JsonTokenOwned::JsKey(k)), child.subrange(0, n as int));
                    assert(consumed(a, *state) =~= pre2.push(state.spec_token()));
                    pre = pre2;
                }
            },
        }
    }
    let ghost m_exit = (state.spec_matches() - m0) as nat;
    if is_match {
        state.matches = state.matches + 1;
    }
    let ghost hit = is_match;
    let ghost before_end = *state;
    proof {
        assert(advanced(a, before_end));
        assert(consumed(a, before_end) == pre.push(JsonTokenOwned::EndObject));
    }
    match state.next_token() {
        Err(e) => {
            proof {
                lemma_object_end(
                    c,
                    pre,
                    store,
                    fields_view(map),
                    hit,
                    m_exit,
                    Seq::empty(),
                );
                assert(consumed(a, *state) =~= pre.push(JsonTokenOwned::EndObject)
                    + Seq::empty());
            }
            return Err(e);
        },
        Ok(()) => {},
    }
    proof {
        lemma_pull(a, before_end, *state);
        lemma_object_view(map);
        lemma_object_end(c, pre, store, fields_view(map), hit, m_exit, seq![state.spec_token()]);
        assert(consumed(a, *state) =~= pre.push(JsonTokenOwned::EndObject) + seq![
            state.spec_token(),
        ]);
    }
    Ok(JsonValue::Object(map))
}

/// Parses an array whose '[' is the current event.
fn parse_array<S: TokenSource>(state: &mut State<S>, store: bool, depth: u64) -> (r: Result<
    JsonValue,
    ParseError,
>)
    requires
        old(state).wf(),
        old(state).spec_token() is StartArray,
    ensures
        parse_post(*old(state), *final(state), store, depth + 1, r),
    decreases u64::MAX - old(state).spec_events(), 0int,
{
    let ghost a = *state;
    let ghost c = state.spec_config();
    let ghost c0 = state.spec_events();
    let ghost m0 = state.spec_matches();
    proof {
        lemma_advanced_refl(a);
    }
    match state.next_token() {
        Err(e) => {
            return Err(e);
        },
        Ok(()) => {},
    }
    let ghost mut pre: Seq<JsonTokenOwned> = seq![JsonTokenOwned::StartArray];
    proof {
        lemma_pull(a, a, *state);
        lemma_array_start(c, pre, store);
        lemma_open_single(pre[0]);
        assert(pre =~= seq![pre[0]]);
    }
    let mut arr: Vec<JsonValue> = Vec::new();
    proof {
        assert(elems_view(arr) =~= Seq::<Json>::empty());
    }
    while !token_is_end_array(state.token())
        invariant
            a == *old(state),
            a.wf(),
            advanced(a, *state),
            c == a.spec_config(),
            c0 == a.spec_events(),
            m0 == a.spec_matches(),
            state.history().len() > a.history().len(),
            consumed(a, *state) == pre.push(state.spec_token()),
            open_containers(pre) == 1,
            array_frame(c, pre, store, elems_view(arr), (state.spec_matches() - m0) as nat),
            !is_eof(state.spec_token()) ==> state.spec_events() > c0,
        decreases u64::MAX - state.spec_events(), (if is_eof(state.spec_token()) {
            0int
        } else {
            1int
        }),
    {
        let ghost m = (state.spec_matches() - m0) as nat;
        if let JsonTokenOwned::JsEof = state.token() {
            proof {
                lemma_array_child_fails(
                    c,
                    pre,
                    store,
                    elems_view(arr),
                    m,
                    seq![state.spec_token()],
                );
                assert(pre.push(state.spec_token()) =~= pre + seq![state.spec_token()]);
                assert(value_events(c, seq![state.spec_token()], store) is None);
                lemma_bad_start_dead(c, state.spec_token(), store);
                lemma_array_child_dead(
                    c,
                    pre,
                    store,
                    elems_view(arr),
                    m,
                    seq![state.spec_token()],
                );
            }
            return Err(ParseError::Protocol);
        }
        let ghost b = *state;
        proof {
            assert(!is_eof(state.spec_token()));
            assert(state.spec_events() > c0);
        }
        let res = parse(state, store, depth);
        let ghost child = consumed(b, *state);
        proof {
            lemma_chain(a, b, *state);
            assert(consumed(a, b).drop_last() =~= pre);
            assert(child[0] == b.spec_token());
        }
        match res {
            Err(e) => {
                proof {
                    lemma_array_child_fails(c, pre, store, elems_view(arr), m, child);
                    lemma_open_concat(pre, child);
                    if e is Protocol {
                        lemma_array_child_dead(c, pre, store, elems_view(arr), m, child);
                    }
                }
                return Err(e);
            },
            Ok(v) => {
                let ghost n = (child.len() - 1) as nat;
                proof {
                    lemma_array_step(c, pre, store, elems_view(arr), m, child);
                }
                let ghost acc0 = elems_view(arr);
                let ghost vv = v@;
                if store {
                    arr.push(v);
                }
                proof {
                    assert(store ==> elems_view(arr) =~= acc0.push(vv));
                    let pre2 = pre + child.subrange(0, n as int);
                    lemma_value_balanced(c, child, store);
                    assert(child.take(n as int) == child.subrange(0, n as int));
                    lemma_open_concat(pre, child.subrange(0, n as int));
                    assert(consumed(a, *state) =~= pre2.push(state.spec_token()));
                    pre = pre2;
                }
            },
        }
    }
    let ghost before_end = *state;
    let ghost m_exit = (state.spec_matches() - m0) as nat;
    match state.next_token() {
        Err(e) => {
            proof {
                lemma_array_end(c, pre, store, elems_view(arr), m_exit, Seq::empty());
                assert(consumed(a, *state) =~= pre.push(JsonTokenOwned::EndArray)
                    + Seq::empty());
            }
            return Err(e);
        },
        Ok(()) => {},
    }
    proof {
        lemma_pull(a, before_end, *state);
        lemma_array_view(arr);
        lemma_array_end(c, pre, store, elems_view(arr), m_exit, seq![state.spec_token()]);
        assert(consumed(a, *state) =~= pre.push(JsonTokenOwned::EndArray) + seq![
            state.spec_token(),
        ]);
    }
    Ok(JsonValue::Array(arr))
}

/// Parses a whole document from a cursor that has pulled nothing yet: pulls the first
/// event, parses the root value without retention, and requires the end of input
/// right after it. At most the configured number of containers may be open at once;
/// a depth error means the events loaded leave more than that many open.
///
/// Succeeds exactly when the events loaded form a document; the match counter then
/// holds the number of matching objects in it.
pub fn parse_document<S: TokenSource>(state: &mut State<S>) -> (r: Result<JsonValue, ParseError>)
    requires
        old(state).wf(),
        old(state).history().len() == 0,
        old(state).spec_matches() == 0,
    ensures
        final(state).wf(),
        final(state).spec_config() == old(state).spec_config(),
        final(state).spec_events() == count_events(final(state).history()),
        match r {
            Ok(v) => document_events(final(state).spec_config(), final(state).history()) == Some(
                (v@, final(state).spec_matches() as nat),
            ),
            Err(e) => {
                let c = final(state).spec_config();
                let h = final(state).history();
                &&& document_events(c, h) is None
                &&& (e is Protocol ==> forall|t: Seq<JsonTokenOwned>|
                    starts_with(t, h) ==> #[trigger] document_events(c, t) is None)
                &&& (e is Lexical ==> final(state).source_failed())
                &&& (e is CounterOverflow ==> final(state).spec_events() == u64::MAX)
                &&& (e is DepthExceeded ==> open_containers(h) > final(state).spec_config().max_depth)
            },
        },
{
    let ghost a = *state;
    match state.next_token() {
        Err(e) => {
            proof {
                state.lemma_counted();
            }
            return Err(e);
        },
        Ok(()) => {},
    }
    let ghost b = *state;
    let res = parse(state, false, state.config.max_depth);
    proof {
        state.lemma_counted();
    }
    proof {
        assert(consumed(b, *state) =~= state.history()) by {
            assert(state.history().subrange(0, 1) == b.history());
            assert(state.history()[0] == b.history()[0]);
        }
    }
    let ghost c = state.spec_config();
    let ghost h = state.history();
    match res {
        Err(e) => {
            proof {
                if e is Protocol {
                    assert forall|t: Seq<JsonTokenOwned>| starts_with(t, h) implies #[trigger] document_events(
                        c,
                        t,
                    ) is None by {
                        assert(value_events(c, t, false) is None);
                    }
                }
            }
            Err(e)
        },
        Ok(v) => {
            if let JsonTokenOwned::JsEof = state.token() {
                Ok(v)
            } else {
                proof {
                    let n = (h.len() - 1) as nat;
                    assert forall|t: Seq<JsonTokenOwned>| starts_with(t, h) implies #[trigger] document_events(
                        c,
                        t,
                    ) is None by {
                        assert forall|i: int| 0 <= i < n implies t[i] == h[i] by {
                            assert(t.subrange(0, h.len() as int)[i] == h[i]);
                        }
                        lemma_value_frame(c, h, t, false);
                        assert(t[n as int] == t.subrange(0, h.len() as int)[n as int]);
                    }
                }
                Err(ParseError::Protocol)
            }
        },
    }
}

} // verus!
