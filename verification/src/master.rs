//! The master coordinator: the request handlers' decisions.
//!
//! The master exposes registration, query retrieval, work-item leasing,
//! output ingestion and completion marking.  Everything that decides —
//! routing a path, validating the shared secret, choosing between stored
//! and fixture queries, dispensing the next locator, checking the store's
//! schema — is here; the HTTP plumbing and the store calls around it are
//! not, and hand these functions plain values.
use vstd::prelude::*;

use crate::codec::copy_range;
use crate::document::bytes_eq;
use crate::group::Query;
use crate::record::region_matches;
use crate::record::starts_with;
use crate::util::fixture_query_model;
use crate::util::get_query;
use vstd::string::StrSliceExecFns;
use vstd::string::StringSliceAdditionalSpecFns;

verus! {

/// The handshake path.
pub open spec fn path_handshake() -> Seq<u8> {
    ("/handshake").spec_bytes()
}

/// The prefix of a registration path; the rest is the shared secret.
pub open spec fn path_register_prefix() -> Seq<u8> {
    ("/register/").spec_bytes()
}

/// The query-retrieval path.
pub open spec fn path_queries() -> Seq<u8> {
    ("/queries/").spec_bytes()
}

/// The work-leasing path.
pub open spec fn path_source() -> Seq<u8> {
    ("/source/").spec_bytes()
}

/// The output-ingestion path.
pub open spec fn path_output() -> Seq<u8> {
    ("/output/").spec_bytes()
}

/// The prefix of a completion path; the rest is the work item's id.
pub open spec fn path_complete_prefix() -> Seq<u8> {
    ("/complete_source/").spec_bytes()
}

/// The session-release path.
pub open spec fn path_unregister() -> Seq<u8> {
    ("/unregister/").spec_bytes()
}

/// Where a request goes.
pub enum Route {
    /// The liveness probe.
    Handshake,
    /// Registration, carrying the shared secret from the path.
    Register { secret: Vec<u8> },
    /// Query retrieval.
    Queries,
    /// Work leasing.
    Source,
    /// Output ingestion.
    Output,
    /// Completion marking, carrying the work item's id from the path.
    CompleteSource { id: Vec<u8> },
    /// Session release.
    Unregister,
    /// Anything else.
    NotFound,
}

/// The model of a route.
pub enum RouteModel {
    Handshake,
    Register { secret: Seq<u8> },
    Queries,
    Source,
    Output,
    CompleteSource { id: Seq<u8> },
    Unregister,
    NotFound,
}

impl View for Route {
    type V = RouteModel;

    open spec fn view(&self) -> RouteModel {
        match self {
            Route::Handshake => RouteModel::Handshake,
            Route::Register { secret } => RouteModel::Register { secret: secret@ },
            Route::Queries => RouteModel::Queries,
            Route::Source => RouteModel::Source,
            Route::Output => RouteModel::Output,
            Route::CompleteSource { id } => RouteModel::CompleteSource { id: id@ },
            Route::Unregister => RouteModel::Unregister,
            Route::NotFound => RouteModel::NotFound,
        }
    }
}

/// Which route a request path names.
pub open spec fn route_spec(path: Seq<u8>) -> RouteModel {
    if path == path_handshake() {
        RouteModel::Handshake
    } else if starts_with(path, path_register_prefix()) {
        RouteModel::Register { secret: path.skip(path_register_prefix().len() as int) }
    } else if path == path_queries() {
        RouteModel::Queries
    } else if path == path_source() {
        RouteModel::Source
    } else if path == path_output() {
        RouteModel::Output
    } else if starts_with(path, path_complete_prefix()) {
        RouteModel::CompleteSource { id: path.skip(path_complete_prefix().len() as int) }
    } else if path == path_unregister() {
        RouteModel::Unregister
    } else {
        RouteModel::NotFound
    }
}

/// Route one request path.
pub fn route(path: &Vec<u8>) -> (r: Route)
    ensures
        r@ == route_spec(path@),
{
    let handshake = ("/handshake").as_bytes_vec();
    let register_prefix = ("/register/").as_bytes_vec();
    let queries = ("/queries/").as_bytes_vec();
    let source = ("/source/").as_bytes_vec();
    let output = ("/output/").as_bytes_vec();
    let complete_prefix = ("/complete_source/").as_bytes_vec();
    let unregister = ("/unregister/").as_bytes_vec();
    if bytes_eq(path, &handshake) {
        Route::Handshake
    } else if region_matches(path, 0, path.len(), &register_prefix) {
        let secret = copy_range(path, register_prefix.len(), path.len());
        proof {
            assert(starts_with(path@, path_register_prefix()));
            assert(secret@ =~= path@.skip(path_register_prefix().len() as int));
        }
        Route::Register { secret }
    } else if bytes_eq(path, &queries) {
        Route::Queries
    } else if bytes_eq(path, &source) {
        Route::Source
    } else if bytes_eq(path, &output) {
        Route::Output
    } else if region_matches(path, 0, path.len(), &complete_prefix) {
        let id = copy_range(path, complete_prefix.len(), path.len());
        proof {
            assert(starts_with(path@, path_complete_prefix()));
            assert(id@ =~= path@.skip(path_complete_prefix().len() as int));
        }
        Route::CompleteSource { id }
    } else if bytes_eq(path, &unregister) {
        Route::Unregister
    } else {
        proof {
            if starts_with(path@, path_register_prefix()) {
                assert(path@.subrange(0, path_register_prefix().len() as int)
                    == path_register_prefix());
            }
            if starts_with(path@, path_complete_prefix()) {
                assert(path@.subrange(0, path_complete_prefix().len() as int)
                    == path_complete_prefix());
            }
        }
        Route::NotFound
    }
}

/// One reply, as the handlers decide it: a status code and a body.
pub struct HttpReply {
    pub status: u16,
    pub body: Vec<u8>,
}

/// The fixed greeting the handshake answers with.
pub open spec fn greeting() -> Seq<u8> {
    ("nice to meet you").spec_bytes()
}

/// The body of the not-found reply.
pub open spec fn not_found_body() -> Seq<u8> {
    ("not found").spec_bytes()
}

/// The liveness probe: a fixed greeting.
pub fn handshake() -> (r: HttpReply)
    ensures
        r.status == 200,
        r.body@ == greeting(),
{
    HttpReply { status: 200, body: ("nice to meet you").as_bytes_vec() }
}

/// The reply for a path the master does not serve.
pub fn not_found() -> (r: HttpReply)
    ensures
        r.status == 404,
        r.body@ == not_found_body(),
{
    HttpReply { status: 404, body: ("not found").as_bytes_vec() }
}

/// The fixed locator served in debug and offline configurations.
pub open spec fn debug_locator() -> Seq<u8> {
    (
    "crawl-data/CC-MAIN-2018-51/segments/1544376823710.44/warc/CC-MAIN-20181212000955-20181212022455-00124.warc.gz"
    ).spec_bytes()
}

/// The debug work locator: a fixed archive object, served in place of
/// the queue so that a deployment without a store can still exercise a
/// worker.
pub fn get_debug_data() -> (r: Vec<u8>)
    ensures
        r@ == debug_locator(),
{
    (
    "crawl-data/CC-MAIN-2018-51/segments/1544376823710.44/warc/CC-MAIN-20181212000955-20181212022455-00124.warc.gz"
    ).as_bytes_vec()
}

/// An issued access session.
pub struct AccessSession {
    pub access_key: Vec<u8>,
}

/// Registration: the shared secret buys a session carrying the token the
/// caller minted — and nothing else does.
pub fn register(secret: &Vec<u8>, expected: &Vec<u8>, token: Vec<u8>) -> (r: Option<AccessSession>)
    ensures
        r is Some <==> secret@ == expected@,
        r matches Some(s) ==> s.access_key@ == token@,
{
    if bytes_eq(secret, expected) {
        Some(AccessSession { access_key: token })
    } else {
        None
    }
}

/// The query set a request is answered with: the stored queries when the
/// store has any, else a debug fixture of the configured size — never
/// both.
pub fn get_queries(db_queries: Option<Vec<Query>>, debug_queries: usize) -> (qs: Vec<Query>)
    ensures
        match db_queries {
            Some(stored) => qs.deep_view() == stored.deep_view(),
            None => {
                &&& qs@.len() == debug_queries
                &&& forall|i: int|
                    0 <= i < qs@.len() ==> qs.deep_view()[i] == fixture_query_model()
            },
        },
{
    match db_queries {
        Some(stored) => stored,
        None => {
            let mut qs: Vec<Query> = Vec::new();
            let mut i: usize = 0;
            while i < debug_queries
                invariant
                    i <= debug_queries,
                    qs@.len() == i,
                    forall|k: int| 0 <= k < i ==> qs.deep_view()[k] == fixture_query_model(),
                decreases debug_queries - i,
            {
                let ghost old_dv = qs.deep_view();
                qs.push(get_query());
                proof {
                    assert(qs.deep_view() =~~= old_dv.push(fixture_query_model()));
                }
                i = i + 1;
            }
            qs
        },
    }
}

/// The work-leasing reply: the next locator with status 200, or the
/// distinguished empty-queue signal, status 204 with an empty body.
pub fn get_data(url: Option<Vec<u8>>) -> (r: HttpReply)
    ensures
        match url {
            Some(u) => r.status == 200 && r.body@ == u@,
            None => r.status == 204 && r.body@ == Seq::<u8>::empty(),
        },
{
    match url {
        Some(u) => HttpReply { status: 200, body: u },
        None => {
            let r = HttpReply { status: 204, body: Vec::new() };
            proof {
                assert(r.body@ =~= Seq::<u8>::empty());
            }
            r
        },
    }
}

/// The next pending locator the store handed back, if any: the queue is
/// empty exactly when there are no rows.
pub fn next_locator(rows: &Vec<Vec<u8>>) -> (r: Option<Vec<u8>>)
    ensures
        match r {
            Some(u) => rows@.len() > 0 && u@ == rows@.last()@,
            None => rows@.len() == 0,
        },
{
    if rows.len() == 0 {
        None
    } else {
        let last = rows.len() - 1;
        let u = copy_range(&rows[last], 0, rows[last].len());
        proof {
            assert(u@ =~= rows@.last()@);
        }
        Some(u)
    }
}

/// The name of the stored-queries table.
pub open spec fn table_queries() -> Seq<u8> {
    ("queries").spec_bytes()
}

/// The name of the accepted-outputs table.
pub open spec fn table_outputs() -> Seq<u8> {
    ("outputs").spec_bytes()
}

/// The name of the pending-locators table.
pub open spec fn table_inputs() -> Seq<u8> {
    ("inputs").spec_bytes()
}

/// A table name occurs in the store's catalogue.
pub open spec fn has_table(tables: Seq<Seq<u8>>, name: Seq<u8>) -> bool {
    exists|i: int| 0 <= i < tables.len() && tables[i] == name
}

/// Schema verification: given the names of the store's tables, all three
/// of the queries, outputs and inputs tables must be present.
pub fn verify_database(tables: &Vec<Vec<u8>>) -> (ok: bool)
    ensures
        ok <==> (has_table(tables.deep_view(), table_queries()) && has_table(
            tables.deep_view(),
            table_outputs(),
        ) && has_table(tables.deep_view(), table_inputs())),
{
    let ghost ts = tables.deep_view();
    let queries_name = ("queries").as_bytes_vec();
    let outputs_name = ("outputs").as_bytes_vec();
    let inputs_name = ("inputs").as_bytes_vec();
    let mut queries_present = false;
    let mut outputs_present = false;
    let mut inputs_present = false;
    let mut i: usize = 0;
    while i < tables.len()
        invariant
            i <= tables@.len(),
            ts == tables.deep_view(),
            ts.len() == tables@.len(),
            queries_name@ == table_queries(),
            outputs_name@ == table_outputs(),
            inputs_name@ == table_inputs(),
            queries_present <==> exists|k: int| 0 <= k < i && ts[k] == table_queries(),
            outputs_present <==> exists|k: int| 0 <= k < i && ts[k] == table_outputs(),
            inputs_present <==> exists|k: int| 0 <= k < i && ts[k] == table_inputs(),
        decreases tables@.len() - i,
    {
        proof {
            assert(ts[i as int] == tables@[i as int]@);
        }
        if bytes_eq(&tables[i], &queries_name) {
            queries_present = true;
        }
        if bytes_eq(&tables[i], &outputs_name) {
            outputs_present = true;
        }
        if bytes_eq(&tables[i], &inputs_name) {
            inputs_present = true;
        }
        i = i + 1;
    }
    queries_present && outputs_present && inputs_present
}

} // verus!
