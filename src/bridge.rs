use vstd::prelude::*;
use vstd::string::StringExecFns;
use crate::registry::TransactionRegistry;
use crate::value::{
    bind_all_spec, bind_params, decode_row, decode_spec, BindError, DynValue, RawColumn, Row,
    WireParam,
};

verus! {

/// Outcome of a statement run for its side effect.
#[derive(Debug, Clone, Copy, PartialEq, Eq)]
pub struct QueryResult {
    pub last_insert_id: Option<i64>,
    pub rows_affected: u64,
}

/// All rows of a read, in result order.
#[derive(Debug, Clone, PartialEq)]
pub struct FetchResult {
    pub data: Vec<Row>,
}

/// The first row of a read, or none.
#[derive(Debug, Clone, PartialEq)]
pub struct FetchOneResult {
    pub data: Option<Row>,
}

/// The errors a bridge operation reports to its caller.
#[derive(Debug, Clone, PartialEq)]
pub enum BridgeError {
    /// No transaction is open under the handle.
    TransactionNotFound,
    /// A freshly minted handle was already in use.
    HandleCollision,
    /// A parameter could not be bound.
    Binding(BindError),
    /// The pool could not open a transaction.
    BeginFailed(String),
    /// The driver rejected the statement.
    Execution(String),
    /// The driver could not commit or roll back.
    CloseFailed(String),
}

/// The decoded form of one fetched row.
pub open spec fn decoded_columns(cols: Seq<RawColumn>) -> Seq<(String, DynValue)> {
    cols.map_values(|c: RawColumn| (c.name, decode_spec(c.cell)))
}

/// The result of closing a transaction: nothing to close is success.
pub open spec fn close_spec(outcome: Option<Result<(), String>>) -> Result<(), BridgeError> {
    match outcome {
        None => Ok(()),
        Some(Ok(())) => Ok(()),
        Some(Err(e)) => Err(BridgeError::CloseFailed(e)),
    }
}

/// A lowercase hexadecimal digit.
pub open spec fn is_lower_hex(c: char) -> bool {
    ('0' <= c && c <= '9') || ('a' <= c && c <= 'f')
}

/// The hyphenated lowercase text of a version-4, RFC 4122 variant UUID.
pub open spec fn uuid_v4_text(s: Seq<char>) -> bool {
    &&& s.len() == 36
    &&& forall|i: int|
        0 <= i < 36 ==> if i == 8 || i == 13 || i == 18 || i == 23 {
            #[trigger] s[i] == '-'
        } else {
            is_lower_hex(s[i])
        }
    &&& s[14] == '4'
    &&& (s[19] == '8' || s[19] == '9' || s[19] == 'a' || s[19] == 'b')
}

/// Relies on uuid's `Uuid::new_v4` and its `Display` impl: a random
/// version-4 identifier in its hyphenated lowercase text form.
#[verifier::external_body]
fn new_handle() -> (r: String)
    ensures
        uuid_v4_text(r@),
{
    uuid::Uuid::new_v4().to_string()
}

/// What base64's URL-safe padded engine makes of the UTF-8 bytes of a text.
pub uninterp spec fn url_safe_base64_of(text: Seq<char>) -> Seq<char>;

/// Relies on base64's `general_purpose::URL_SAFE.encode`: the URL-safe,
/// padded base64 text of the input's bytes, a function of the input alone.
#[verifier::external_body]
fn encode_url_safe(text: &str) -> (r: String)
    ensures
        r@ == url_safe_base64_of(text@),
{
    base64::Engine::encode(&base64::engine::general_purpose::URL_SAFE, text)
}

/// The `data:` URL under which a print window shows `html_content`.
pub fn print_window_url(html_content: &str) -> (r: String)
    ensures
        r@ == "data:text/html,"@ + url_safe_base64_of(html_content@),
{
    let encoded = encode_url_safe(html_content);
    let mut url = String::from_str("data:text/html,");
    url.append(encoded.as_str());
    url
}

impl<T> TransactionRegistry<T> {
    /// Registers `tx` under `handle` unless that handle was ever issued
    /// before, so that no handle is used twice.
    pub fn register(&mut self, handle: String, tx: T) -> (r: Result<String, BridgeError>)
        requires
            old(self).wf(),
        ensures
            final(self).wf(),
            old(self).issued().contains(handle@) ==> r == Err::<String, BridgeError>(
                BridgeError::HandleCollision,
            ) && final(self)@ == old(self)@ && final(self).issued() == old(self).issued(),
            !old(self).issued().contains(handle@) ==> r == Ok::<String, BridgeError>(handle)
                && final(self)@ == old(self)@.insert(handle@, tx) && final(self).issued() == old(
                self).issued().insert(handle@),
    {
        if self.was_issued(&handle) {
            Err(BridgeError::HandleCollision)
        } else {
            let _ = self.insert(handle.clone(), tx);
            Ok(handle)
        }
    }

    /// Registers the transaction the pool opened under a freshly minted
    /// handle. When the pool could not open one, nothing is registered.
    pub fn begin_transaction(&mut self, opened: Result<T, String>) -> (r: Result<
        String,
        BridgeError,
    >)
        requires
            old(self).wf(),
        ensures
            final(self).wf(),
            opened is Ok && old(self).issued() == Set::<Seq<char>>::empty() ==> r is Ok,
            match opened {
                Err(e) => r == Err::<String, BridgeError>(BridgeError::BeginFailed(e))
                    && final(self)@ == old(self)@ && final(self).issued() == old(self).issued(),
                Ok(tx) => match r {
                    Ok(h) => uuid_v4_text(h@) && !old(self).issued().contains(h@) && final(self)@
                        == old(self)@.insert(h@, tx) && final(self).issued() == old(
                        self).issued().insert(h@),
                    Err(e) => e == BridgeError::HandleCollision && final(self)@ == old(self)@
                        && final(self).issued() == old(self).issued(),
                },
            },
    {
        match opened {
            Err(e) => Err(BridgeError::BeginFailed(e)),
            Ok(tx) => {
                let handle = new_handle();
                self.register(handle, tx)
            },
        }
    }

    /// Checks the transaction under `handle` out for one statement and binds
    /// the statement's parameters. Nothing changes unless both succeed.
    pub fn prepare_execute(&mut self, handle: &String, params: &Vec<WireParam>) -> (r: Result<
        (T, Vec<DynValue>),
        BridgeError,
    >)
        requires
            old(self).wf(),
        ensures
            final(self).wf(),
            match r {
                Ok((tx, values)) => old(self)@.contains_key(handle@) && tx == old(self)@[handle@]
                    && bind_all_spec(params@) == Ok::<Seq<DynValue>, BindError>(values@) && final(self)@ == old(self)@.remove(handle@),
                Err(BridgeError::TransactionNotFound) => !old(self)@.contains_key(handle@) && final(self)@ == old(self)@,
                Err(BridgeError::Binding(e)) => old(self)@.contains_key(handle@) && bind_all_spec(
                    params@,
                ) == Err::<Seq<DynValue>, BindError>(e) && final(self)@ == old(self)@,
                Err(_) => false,
            },
    {
        if !self.contains(handle) {
            return Err(BridgeError::TransactionNotFound);
        }
        match bind_params(params) {
            Err(e) => Err(BridgeError::Binding(e)),
            Ok(values) => match self.take(handle) {
                Some(tx) => Ok((tx, values)),
                None => Err(BridgeError::TransactionNotFound),
            },
        }
    }

    /// Puts the transaction back under its handle after the statement ran,
    /// and reports the driver's outcome. The transaction stays open either way.
    pub fn finish_execute(
        &mut self,
        handle: String,
        tx: T,
        outcome: Result<(Option<i64>, u64), String>,
    ) -> (r: Result<QueryResult, BridgeError>)
        requires
            old(self).wf(),
        ensures
            final(self).wf(),
            final(self)@ == old(self)@.insert(handle@, tx),
            final(self).issued() == old(self).issued().insert(handle@),
            match outcome {
                Ok((id, n)) => r == Ok::<QueryResult, BridgeError>(
                    (QueryResult { last_insert_id: id, rows_affected: n }),
                ),
                Err(e) => r == Err::<QueryResult, BridgeError>(BridgeError::Execution(e)),
            },
    {
        let _ = self.insert(handle, tx);
        match outcome {
            Ok((id, n)) => Ok(QueryResult { last_insert_id: id, rows_affected: n }),
            Err(e) => Err(BridgeError::Execution(e)),
        }
    }
}

/// The row id a statement generated, from the connection's last-insert row
/// id read before and after it: present only when the statement changed
/// rows and the last-insert row id moved.
pub fn generated_row_id(rowid_before: i64, rowid_after: i64, rows_affected: u64) -> (r: Option<i64>)
    ensures
        r == (if rows_affected > 0 && rowid_after != rowid_before {
            Some(rowid_after)
        } else {
            None::<i64>
        }),
{
    if rows_affected > 0 && rowid_after != rowid_before {
        Some(rowid_after)
    } else {
        None
    }
}

/// Reports the end of a commit or rollback: `None` when no transaction was
/// open under the handle, else the driver's outcome.
pub fn finish_close(outcome: Option<Result<(), String>>) -> (r: Result<(), BridgeError>)
    ensures
        r == close_spec(outcome),
{
    match outcome {
        None => Ok(()),
        Some(Ok(())) => Ok(()),
        Some(Err(e)) => Err(BridgeError::CloseFailed(e)),
    }
}

/// Decodes the first row of a read, if there is one.
pub fn decode_one(row: Option<Vec<RawColumn>>) -> (r: FetchOneResult)
    ensures
        match row {
            None => r.data is None,
            Some(cols) => r.data matches Some(d) && d@ == decoded_columns(cols@),
        },
{
    match row {
        None => FetchOneResult { data: None },
        Some(cols) => {
            let d = decode_row(&cols);
            assert(d@ =~= decoded_columns(cols@));
            FetchOneResult { data: Some(d) }
        },
    }
}

/// Decodes every row of a read, keeping their order.
pub fn decode_many(rows: &Vec<Vec<RawColumn>>) -> (r: FetchResult)
    ensures
        r.data@.len() == rows@.len(),
        forall|i: int| 0 <= i < rows@.len() ==> (#[trigger] r.data@[i])@ == decoded_columns(
            rows@[i]@,
        ),
{
    let mut data: Vec<Row> = Vec::new();
    let mut i: usize = 0;
    while i < rows.len()
        invariant
            i <= rows@.len(),
            data@.len() == i,
            forall|j: int| 0 <= j < i ==> (#[trigger] data@[j])@ == decoded_columns(rows@[j]@),
        decreases rows@.len() - i,
    {
        let d = decode_row(&rows[i]);
        assert(d@ =~= decoded_columns(rows@[i as int]@));
        data.push(d);
        i += 1;
    }
    FetchResult { data }
}

/// Committing or rolling back a handle under which nothing is open leaves
/// the registry as it was and succeeds.
pub proof fn lemma_close_unknown_handle<T>(open: Map<Seq<char>, T>, handle: Seq<char>)
    requires
        !open.contains_key(handle),
    ensures
        open.remove(handle) == open,
        close_spec(None) == Ok::<(), BridgeError>(()),
{
    assert(open.remove(handle) =~= open);
}

/// Running a statement under an open handle, whatever the driver answers,
/// leaves the registry exactly as it was: the transaction checked out is the
/// one put back, so later statements under the handle see its writes.
pub proof fn lemma_execute_restores_registry<T>(open: Map<Seq<char>, T>, handle: Seq<char>)
    requires
        open.contains_key(handle),
    ensures
        open.remove(handle).insert(handle, open[handle]) == open,
{
    assert(open.remove(handle).insert(handle, open[handle]) =~= open);
}

/// Checking out, putting back or closing the transaction under one handle
/// leaves the transaction under every other handle as it was.
pub proof fn lemma_other_handles_untouched<T>(
    open: Map<Seq<char>, T>,
    handle: Seq<char>,
    tx: T,
    other: Seq<char>,
)
    requires
        open.contains_key(other),
        other != handle,
    ensures
        open.remove(handle).contains_key(other),
        open.remove(handle)[other] == open[other],
        open.insert(handle, tx).contains_key(other),
        open.insert(handle, tx)[other] == open[other],
{
}

proof fn lemma_issued_keeps(issued: Seq<Set<Seq<char>>>, hs: Seq<Seq<char>>, i: int, k: int)
    requires
        issued.len() == hs.len() + 1,
        forall|j: int| 0 <= j < hs.len() ==> issued[j].insert(hs[j]).subset_of(#[trigger] issued[j + 1]),
        0 <= i < k <= hs.len(),
    ensures
        issued[k].contains(hs[i]),
    decreases k - i,
{
    if k == i + 1 {
        assert(issued[i].insert(hs[i]).subset_of(issued[i + 1]));
    } else {
        lemma_issued_keeps(issued, hs, i, k - 1);
        assert(issued[(k - 1)].insert(hs[k - 1]).subset_of(issued[(k - 1) + 1]));
    }
}

/// Handles returned by successive begins are pairwise distinct, however many
/// commits, rollbacks and statements run in between: each begin returns a
/// handle outside the issued set and adds it there, and no step removes an
/// issued handle.
pub proof fn lemma_begun_handles_distinct(issued: Seq<Set<Seq<char>>>, hs: Seq<Seq<char>>)
    requires
        issued.len() == hs.len() + 1,
        forall|j: int| 0 <= j < hs.len() ==> !(#[trigger] issued[j]).contains(hs[j]),
        forall|j: int| 0 <= j < hs.len() ==> issued[j].insert(hs[j]).subset_of(#[trigger] issued[j + 1]),
    ensures
        forall|i: int, j: int| 0 <= i < j < hs.len() ==> hs[i] != hs[j],
{
    assert forall|i: int, j: int| 0 <= i < j < hs.len() implies hs[i] != hs[j] by {
        lemma_issued_keeps(issued, hs, i, j);
        assert(!issued[j].contains(hs[j]));
    }
}

} // verus!
