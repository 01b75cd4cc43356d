//! The Stratum protocol: jobs, requests, replies and their framing.

use crate::hex_text::{self, HexError};
use crate::text;
use std::collections::HashSet;
use vstd::prelude::*;

verus! {

/// The longest frame that is read, with its line end.
pub const MAX_STRATUM_FRAME_BYTES: usize = 1_048_576;

/// The server's code for a share below the difficulty of its job.
pub const RPC_LOW_DIFFICULTY: i64 = -32501;

/// The server's code for a share that came after its job had ended.
pub const RPC_SUBMITTED_TOO_LATE: i64 = -32503;

/// A template to mine on.
#[derive(Debug, Clone, PartialEq, Eq)]
pub struct Job {
    pub height: u64,
    pub job_id: u64,
    pub difficulty: u64,
    pub pre_pow: String,
}

/// The header that a hexadecimal text writes, if it writes one.
pub open spec fn header_bytes(pre_pow: Seq<char>) -> Option<Seq<u8>> {
    if hex_text::is_hex(hex_text::text_bytes(pre_pow)) {
        Some(hex_text::hex_pairs(hex_text::text_bytes(pre_pow)))
    } else {
        None
    }
}

impl Job {
    /// The header without its nonce.
    pub fn pre_pow_bytes(&self) -> (result: Result<Vec<u8>, HexError>)
        ensures
            match result {
                Ok(bytes) => header_bytes(self.pre_pow@) == Some(bytes@),
                Err(error) => {
                    &&& header_bytes(self.pre_pow@) is None
                    &&& hex_text::is_failure(hex_text::text_bytes(self.pre_pow@), error)
                },
            },
    {
        hex_text::decode(self.pre_pow.as_str())
    }
}

/// A share to submit.
#[derive(Debug)]
pub struct SubmitParams<'a> {
    pub edge_bits: u8,
    pub height: u64,
    pub job_id: u64,
    pub nonce: u64,
    pub pow: &'a [u64],
}

/// Numbers in decimal with commas between them.
pub open spec fn number_list(values: Seq<u64>) -> Seq<char>
    decreases values.len(),
{
    if values.len() == 0 {
        Seq::empty()
    } else if values.len() == 1 {
        text::decimal(values[0] as nat)
    } else {
        number_list(values.drop_last()) + ","@ + text::decimal(values.last() as nat)
    }
}

impl<'a> SubmitParams<'a> {
    /// What `to_json` returns.
    pub open spec fn json_text(self) -> Seq<char> {
        "{\"edge_bits\":"@ + text::decimal(self.edge_bits as nat) + ",\"height\":"@ + text::decimal(
            self.height as nat,
        ) + ",\"job_id\":"@ + text::decimal(self.job_id as nat) + ",\"nonce\":"@ + text::decimal(
            self.nonce as nat,
        ) + ",\"pow\":["@ + number_list(self.pow@) + "]}"@
    }

    /// The share as a JSON object.
    pub fn to_json(&self) -> (json: String)
        ensures
            json@ == self.json_text(),
    {
        let mut json = String::from_str("{\"edge_bits\":");
        text::append_decimal(&mut json, self.edge_bits as u64);
        json.append(",\"height\":");
        text::append_decimal(&mut json, self.height);
        json.append(",\"job_id\":");
        text::append_decimal(&mut json, self.job_id);
        json.append(",\"nonce\":");
        text::append_decimal(&mut json, self.nonce);
        json.append(",\"pow\":[");
        let ghost head = json@;
        let mut i: usize = 0;
        assert(self.pow@.take(0) =~= Seq::<u64>::empty());
        assert(json@ =~= head + number_list(self.pow@.take(0)));
        while i < self.pow.len()
            invariant
                i <= self.pow.len(),
                json@ == head + number_list(self.pow@.take(i as int)),
            decreases self.pow.len() - i,
        {
            let ghost shorter = self.pow@.take(i as int);
            let ghost longer = self.pow@.take(i + 1);
            assert(longer.drop_last() =~= shorter);
            if i > 0 {
                json.append(",");
            }
            text::append_decimal(&mut json, self.pow[i]);
            assert(json@ =~= head + number_list(longer));
            i = i + 1;
        }
        assert(self.pow@.take(i as int) =~= self.pow@);
        json.append("]}");
        json
    }
}

/// An error that the server answered with.  `data` is JSON text.
#[derive(Debug, Clone, PartialEq)]
pub struct RpcError {
    pub code: i64,
    pub message: String,
    pub data: Option<String>,
}

impl RpcError {
    /// Whether the error is one that a good share can meet with.
    pub open spec fn is_expected(self) -> bool {
        self.code == RPC_LOW_DIFFICULTY || self.code == RPC_SUBMITTED_TOO_LATE
    }

    /// Whether the error is one that a good share can meet with.
    pub fn is_expected_share_rejection(&self) -> (expected: bool)
        ensures
            expected == self.is_expected(),
            expected == (self.code == -32501 || self.code == -32503),
    {
        self.code == RPC_LOW_DIFFICULTY || self.code == RPC_SUBMITTED_TOO_LATE
    }
}

/// The server's answer to a share.  What it accepted with is JSON text.
#[derive(Debug, Clone, PartialEq)]
pub enum SubmitOutcome {
    Accepted(String),
    Rejected(RpcError),
}

/// The parts of a message from the server that matter here.  `params`, `error`
/// and `result` are JSON text, where the message has them.
#[derive(Debug, Clone)]
pub struct Message {
    pub method: Option<String>,
    pub params: Option<String>,
    pub id_number: Option<u64>,
    pub id_text: Option<String>,
    pub error: Option<String>,
    pub result: Option<String>,
}

/// A message with its texts as sequences.
#[verifier::ext_equal]
pub struct MessageView {
    pub method: Option<Seq<char>>,
    pub params: Option<Seq<char>>,
    pub id_number: Option<u64>,
    pub id_text: Option<Seq<char>>,
    pub error: Option<Seq<char>>,
    pub result: Option<Seq<char>>,
}

/// The contents of an optional text.
pub open spec fn maybe_text(value: Option<String>) -> Option<Seq<char>> {
    match value {
        Some(value) => Some(value@),
        None => None,
    }
}

impl View for Message {
    type V = MessageView;

    open spec fn view(&self) -> MessageView {
        MessageView {
            method: maybe_text(self.method),
            params: maybe_text(self.params),
            id_number: self.id_number,
            id_text: maybe_text(self.id_text),
            error: maybe_text(self.error),
            result: maybe_text(self.result),
        }
    }
}

/// A member of a JSON object: its text where it is a string, its number where it
/// is one without sign or fraction, and its JSON text.
#[verifier::ext_equal]
pub struct MemberView {
    pub text: Option<Seq<char>>,
    pub number: Option<u64>,
    pub json: Seq<char>,
}

/// What `serde_json` reads in a frame under a name: nothing where the frame is
/// no JSON, else the member, if the value is an object that has it.
pub uninterp spec fn json_member(frame: Seq<u8>, name: Seq<char>) -> Option<Option<MemberView>>;

/// The text of a member that is a string.
pub open spec fn member_text(member: Option<MemberView>) -> Option<Seq<char>> {
    match member {
        Some(member) => member.text,
        None => None,
    }
}

/// The number of a member that is one.
pub open spec fn member_number(member: Option<MemberView>) -> Option<u64> {
    match member {
        Some(member) => member.number,
        None => None,
    }
}

/// The JSON text of a member.
pub open spec fn member_json(member: Option<MemberView>) -> Option<Seq<char>> {
    match member {
        Some(member) => Some(member.json),
        None => None,
    }
}

/// The message in a frame, if it is JSON.
pub open spec fn decoded_message(frame: Seq<u8>) -> Option<MessageView> {
    if json_member(frame, "method"@) is None {
        None
    } else {
        Some(
            MessageView {
                method: member_text(json_member(frame, "method"@)->0),
                params: member_json(json_member(frame, "params"@)->0),
                id_number: member_number(json_member(frame, "id"@)->0),
                id_text: member_text(json_member(frame, "id"@)->0),
                error: member_json(json_member(frame, "error"@)->0),
                result: member_json(json_member(frame, "result"@)->0),
            },
        )
    }
}

/// Calls `serde_json::from_slice` and takes the members with the given names out
/// of the value.  Trusted: what comes out of a member depends on the frame and
/// its name alone, and is what `json_member` names.  Members are written back as
/// compact JSON text, so that the text `null` stands for the value null and for
/// no other.
#[verifier::external_body]
fn decode_members(
    frame: &[u8],
    method: &str,
    params: &str,
    id: &str,
    error: &str,
    result: &str,
) -> (message: Option<Message>)
    ensures
        match message {
            Some(message) => {
                &&& json_member(frame@, method@) is Some
                &&& message@.method == member_text(json_member(frame@, method@)->0)
                &&& message@.params == member_json(json_member(frame@, params@)->0)
                &&& message@.id_number == member_number(json_member(frame@, id@)->0)
                &&& message@.id_text == member_text(json_member(frame@, id@)->0)
                &&& message@.error == member_json(json_member(frame@, error@)->0)
                &&& message@.result == member_json(json_member(frame@, result@)->0)
            },
            None => json_member(frame@, method@) is None,
        },
{
    let value: serde_json::Value = serde_json::from_slice(frame).ok()?;
    Some(Message {
        method: value.get(method).and_then(|v| v.as_str()).map(String::from),
        params: value.get(params).map(|v| v.to_string()),
        id_number: value.get(id).and_then(|v| v.as_u64()),
        id_text: value.get(id).and_then(|v| v.as_str()).map(String::from),
        error: value.get(error).map(|v| v.to_string()),
        result: value.get(result).map(|v| v.to_string()),
    })
}

/// How a character is written in a JSON string.
pub open spec fn escaped(c: char) -> Seq<char> {
    if c == '"' {
        seq!['\\', '"']
    } else if c == '\\' {
        seq!['\\', '\\']
    } else if c == '\u{8}' {
        seq!['\\', 'b']
    } else if c == '\t' {
        seq!['\\', 't']
    } else if c == '\n' {
        seq!['\\', 'n']
    } else if c == '\u{c}' {
        seq!['\\', 'f']
    } else if c == '\r' {
        seq!['\\', 'r']
    } else if (c as nat) < 0x20 {
        seq![
            '\\',
            'u',
            '0',
            '0',
            text::hex_char(c as nat / 16),
            text::hex_char(c as nat % 16),
        ]
    } else {
        seq![c]
    }
}

/// The characters of a JSON string.
pub open spec fn all_escaped(text: Seq<char>) -> Seq<char>
    decreases text.len(),
{
    if text.len() == 0 {
        Seq::empty()
    } else {
        all_escaped(text.drop_last()) + escaped(text.last())
    }
}

/// A text as a JSON string, with its quotes.
pub open spec fn json_string(text: Seq<char>) -> Seq<char> {
    seq!['"'] + all_escaped(text) + seq!['"']
}

/// Calls the `Display` of `serde_json::Value` on a string.  Trusted: it writes
/// quotes around the text, a backslash before quotes and backslashes, the five
/// short escapes of control characters, and the others by their number.
#[verifier::external_body]
fn quote(text: &str) -> (json: String)
    ensures
        json@ == json_string(text@),
{
    serde_json::Value::from(text).to_string()
}

/// A request to the server.
pub enum Request<'a> {
    Login { login: &'a str, password: &'a str },
    GetJobTemplate,
    Submit(SubmitParams<'a>),
}

impl<'a> Request<'a> {
    /// The name of the request, with quotes.
    pub open spec fn method_text(self) -> Seq<char> {
        match self {
            Request::Login { .. } => "\"login\""@,
            Request::GetJobTemplate => "\"getjobtemplate\""@,
            Request::Submit(_) => "\"submit\""@,
        }
    }

    /// The parameters of the request as JSON text.
    pub open spec fn params_text(self) -> Seq<char> {
        match self {
            Request::Login { login, password } =>
                "{\"agent\":\"grin-cuckatoo-rust/0.1\",\"login\":"@ + json_string(login@)
                    + ",\"pass\":"@ + json_string(password@) + "}"@,
            Request::GetJobTemplate => "null"@,
            Request::Submit(params) => params.json_text(),
        }
    }

    /// The line that is sent for the request.
    pub open spec fn line_text(self, id: u64) -> Seq<char> {
        "{\"id\":"@ + text::decimal(id as nat) + ",\"jsonrpc\":\"2.0\",\"method\":"@
            + self.method_text() + ",\"params\":"@ + self.params_text() + "}\n"@
    }

    /// The line that is sent for the request, with its line end.
    pub fn line(&self, id: u64) -> (line: String)
        ensures
            line@ == self.line_text(id),
    {
        let mut line = text::around_decimal(
            "{\"id\":",
            id,
            ",\"jsonrpc\":\"2.0\",\"method\":",
        );
        match self {
            Request::Login { login, password } => {
                line.append("\"login\"");
                line.append(",\"params\":");
                let mut params = String::from_str(
                    "{\"agent\":\"grin-cuckatoo-rust/0.1\",\"login\":",
                );
                params.append(quote(login).as_str());
                params.append(",\"pass\":");
                params.append(quote(password).as_str());
                params.append("}");
                line.append(params.as_str());
            },
            Request::GetJobTemplate => {
                line.append("\"getjobtemplate\"");
                line.append(",\"params\":");
                line.append("null");
            },
            Request::Submit(params) => {
                line.append("\"submit\"");
                line.append(",\"params\":");
                line.append(params.to_json().as_str());
            },
        }
        line.append("}\n");
        line
    }
}

/// Whether a member is there and is not null.
pub open spec fn is_given(member: Option<Seq<char>>) -> bool {
    member is Some && member->0 != "null"@
}

fn given(member: &Option<String>) -> (result: bool)
    ensures
        result == is_given(maybe_text(*member)),
{
    match member {
        Some(json) => !json.eq(&String::from_str("null")),
        None => false,
    }
}

/// What a frame asks for.
#[derive(Debug)]
pub enum Incoming {
    /// The frame is no JSON.
    Invalid,
    /// A new job.  Its parameters are JSON text.
    Push(Option<String>),
    /// The answer to a request.
    Reply(u64, Message),
    /// Nothing that is waited for.
    Ignored,
}

/// What a frame asks for, with texts as sequences.
#[verifier::ext_equal]
pub enum IncomingView {
    Invalid,
    Push(Option<Seq<char>>),
    Reply(u64, MessageView),
    Ignored,
}

impl View for Incoming {
    type V = IncomingView;

    open spec fn view(&self) -> IncomingView {
        match self {
            Incoming::Invalid => IncomingView::Invalid,
            Incoming::Push(params) => IncomingView::Push(maybe_text(*params)),
            Incoming::Reply(id, message) => IncomingView::Reply(*id, message@),
            Incoming::Ignored => IncomingView::Ignored,
        }
    }
}

/// The request that a message answers: its id is a number, or a text that
/// writes one.
pub open spec fn reply_id(message: MessageView) -> Option<u64> {
    match message.id_number {
        Some(id) => Some(id),
        None => match message.id_text {
            Some(id) => match text::parsed(id, u64::MAX) {
                Ok(id) => Some(id),
                Err(_) => None,
            },
            None => None,
        },
    }
}

/// What a message asks for.  A message with the method `job` is a push, also
/// where it has an id.
pub open spec fn classified(message: MessageView) -> IncomingView {
    if message.method == Some("job"@) {
        IncomingView::Push(message.params)
    } else {
        match reply_id(message) {
            Some(id) => IncomingView::Reply(id, message),
            None => IncomingView::Ignored,
        }
    }
}

/// Sorts a message from the server.
pub fn classify(message: Message) -> (incoming: Incoming)
    ensures
        incoming@ == classified(message@),
{
    let is_push: bool = match &message.method {
        Some(method) => method.eq(&String::from_str("job")),
        None => false,
    };
    if is_push {
        return Incoming::Push(message.params);
    }
    let id: Option<u64> = match message.id_number {
        Some(id) => Some(id),
        None => match &message.id_text {
            Some(id) => match text::parse_unsigned(id.as_str(), u64::MAX) {
                Ok(id) => Some(id),
                Err(_) => None,
            },
            None => None,
        },
    };
    match id {
        Some(id) => Incoming::Reply(id, message),
        None => Incoming::Ignored,
    }
}

/// Reads a frame and sorts it.
pub fn read_message(frame: &[u8]) -> (incoming: Incoming)
    ensures
        incoming@ == match decoded_message(frame@) {
            Some(message) => classified(message),
            None => IncomingView::Invalid,
        },
{
    match decode_members(frame, "method", "params", "id", "error", "result") {
        Some(message) => classify(message),
        None => Incoming::Invalid,
    }
}

/// Why a reply was not what a request hoped for.
pub open spec fn reply_failure(message: MessageView, operation: Seq<char>) -> Option<Seq<char>> {
    if is_given(message.error) {
        Some(operation + " rejected: "@ + message.error->0)
    } else if !is_given(message.result) {
        Some(operation + " returned no success result"@)
    } else {
        None
    }
}

fn rejection(error: &str, operation: &str) -> (failure: String)
    ensures
        failure@ == operation@ + " rejected: "@ + error@,
{
    let mut failure = String::from_str(operation);
    failure.append(" rejected: ");
    failure.append(error);
    failure
}

/// Checks that a reply reports success: no error, and a result.
pub fn ensure_ok(response: &Message, operation: &str) -> (result: Result<(), String>)
    ensures
        match result {
            Ok(()) => reply_failure(response@, operation@) is None,
            Err(failure) => reply_failure(response@, operation@) == Some(failure@),
        },
{
    if given(&response.error) {
        match &response.error {
            Some(error) => {
                return Err(rejection(error.as_str(), operation));
            },
            None => {},
        }
    }
    if given(&response.result) {
        Ok(())
    } else {
        let mut failure = String::from_str(operation);
        failure.append(" returned no success result");
        Err(failure)
    }
}

/// The JSON text of the job in a reply, or why there is none.  A missing result
/// counts as null.
pub fn job_reply(response: &Message) -> (result: Result<String, String>)
    ensures
        match result {
            Ok(json) => !is_given(response@.error) && json@ == (match response@.result {
                Some(json) => json,
                None => "null"@,
            }),
            Err(failure) => is_given(response@.error) && failure@ == "getjobtemplate"@
                + " rejected: "@ + response@.error->0,
        },
{
    if given(&response.error) {
        match &response.error {
            Some(error) => {
                return Err(rejection(error.as_str(), "getjobtemplate"));
            },
            None => {},
        }
    }
    match &response.result {
        Some(json) => Ok(json.clone()),
        None => Ok(String::from_str("null")),
    }
}

/// Which job a request for one ends with.
#[derive(Debug)]
pub enum JobChoice {
    /// The reply held no job.
    Unusable,
    /// The job in the reply has no header.
    BadHeader(HexError),
    /// A later job was pushed in the meantime.
    Pushed(Job),
    /// The job in the reply, which is now the latest.
    Fresh(Job),
}

/// Chooses between the job in a reply and the last one that was pushed: the
/// pushed one only if it is for a greater height.
pub fn choose_job(reply: Option<Job>, pushed: Option<Job>) -> (choice: JobChoice)
    ensures
        match reply {
            None => choice is Unusable,
            Some(job) => if header_bytes(job.pre_pow@) is None {
                choice matches JobChoice::BadHeader(error) && hex_text::is_failure(
                    hex_text::text_bytes(job.pre_pow@),
                    error,
                )
            } else if pushed is Some && pushed->0.height > job.height {
                choice == JobChoice::Pushed(pushed->0)
            } else {
                choice == JobChoice::Fresh(job)
            },
        },
{
    match reply {
        None => JobChoice::Unusable,
        Some(job) => match job.pre_pow_bytes() {
            Err(error) => JobChoice::BadHeader(error),
            Ok(_) => match pushed {
                Some(later) => if later.height > job.height {
                    JobChoice::Pushed(later)
                } else {
                    JobChoice::Fresh(job)
                },
                None => JobChoice::Fresh(job),
            },
        },
    }
}

/// Takes a pushed job if it has a header.
pub fn accept_push(job: Job) -> (accepted: Result<Job, HexError>)
    ensures
        match accepted {
            Ok(kept) => header_bytes(job.pre_pow@) is Some && kept == job,
            Err(error) => header_bytes(job.pre_pow@) is None && hex_text::is_failure(
                hex_text::text_bytes(job.pre_pow@),
                error,
            ),
        },
{
    match job.pre_pow_bytes() {
        Ok(_) => Ok(job),
        Err(error) => Err(error),
    }
}

/// The server's answer to a share, from the reply and the error that was read
/// in it.  An error of another form counts with code 0 and its JSON text.
pub fn submit_outcome(response: &Message, error: Option<RpcError>) -> (outcome: SubmitOutcome)
    ensures
        if is_given(response@.error) {
            match error {
                Some(error) => outcome == SubmitOutcome::Rejected(error),
                None => outcome matches SubmitOutcome::Rejected(other) && other.code == 0
                    && other.message@ == response@.error->0 && other.data is None,
            }
        } else {
            outcome matches SubmitOutcome::Accepted(json) && json@ == (match response@.result {
                Some(json) => json,
                None => "null"@,
            })
        },
{
    if given(&response.error) {
        match error {
            Some(error) => {
                return SubmitOutcome::Rejected(error);
            },
            None => match &response.error {
                Some(json) => {
                    return SubmitOutcome::Rejected(
                        RpcError { code: 0, message: json.clone(), data: None },
                    );
                },
                None => {},
            },
        }
    }
    match &response.result {
        Some(json) => SubmitOutcome::Accepted(json.clone()),
        None => SubmitOutcome::Accepted(String::from_str("null")),
    }
}

/// The requests that wait for a reply.  Every request gets an id that no
/// earlier one had.
pub struct RequestTable {
    next_id: u64,
    waiting: HashSet<u64>,
}

impl RequestTable {
    /// The ids that wait for a reply.
    pub closed spec fn waiting(self) -> Set<u64> {
        self.waiting@
    }

    /// The id of the next request.
    pub closed spec fn next(self) -> u64 {
        self.next_id
    }

    /// Whether only ids that were given out wait.
    pub open spec fn valid(self) -> bool {
        forall|id: u64| #[trigger] self.waiting().contains(id) ==> id < self.next()
    }

    /// A table without requests.  Ids start at 1.
    pub fn new() -> (table: RequestTable)
        ensures
            table.valid(),
            table.next() == 1,
            table.waiting() == Set::<u64>::empty(),
    {
        broadcast use vstd::std_specs::hash::group_hash_axioms;

        RequestTable { next_id: 1, waiting: HashSet::new() }
    }

    /// Whether there is an id left for another request.
    pub fn has_ids(&self) -> (result: bool)
        ensures
            result == (self.next() < u64::MAX),
    {
        self.next_id < u64::MAX
    }

    /// Gives the next request its id and waits for its reply.
    pub fn begin(&mut self) -> (id: u64)
        requires
            old(self).valid(),
            old(self).next() < u64::MAX,
        ensures
            final(self).valid(),
            id == old(self).next(),
            !old(self).waiting().contains(id),
            final(self).next() == id + 1,
            final(self).waiting() == old(self).waiting().insert(id),
    {
        broadcast use vstd::std_specs::hash::group_hash_axioms;

        let id = self.next_id;
        self.next_id = id + 1;
        self.waiting.insert(id);
        assert forall|other: u64| #[trigger] self.waiting().contains(other) implies other
            < self.next() by {
            assert(other == id || old(self).waiting().contains(other));
        }
        id
    }

    /// Ends the wait for a reply.  Says whether there was one.
    pub fn settle(&mut self, id: u64) -> (waited: bool)
        requires
            old(self).valid(),
        ensures
            final(self).valid(),
            waited == old(self).waiting().contains(id),
            final(self).next() == old(self).next(),
            final(self).waiting() == old(self).waiting().remove(id),
    {
        broadcast use vstd::std_specs::hash::group_hash_axioms;

        let waited = self.waiting.remove(&id);
        assert(self.waiting() =~= old(self).waiting().remove(id));
        waited
    }

    /// Gives up all waits, as when the connection is lost.
    pub fn abandon(&mut self)
        ensures
            final(self).valid(),
            final(self).next() == old(self).next(),
            final(self).waiting() == Set::<u64>::empty(),
    {
        self.waiting.clear();
    }
}

/// The end of the first line in some bytes: the place after its line feed.
pub open spec fn line_end(bytes: Seq<u8>) -> Option<int>
    decreases bytes.len(),
{
    if bytes.len() == 0 {
        None
    } else if bytes[0] == 0x0a {
        Some(1)
    } else {
        match line_end(bytes.skip(1)) {
            Some(end) => Some(end + 1),
            None => None,
        }
    }
}

/// A line without its line feed, and without the carriage return before it.
pub open spec fn stripped(line: Seq<u8>) -> Seq<u8> {
    let bare = line.drop_last();
    if bare.len() > 0 && bare.last() == 0x0d {
        bare.drop_last()
    } else {
        bare
    }
}

/// What became of bytes that were read.
#[derive(Debug)]
pub enum FrameStep {
    /// The frame would be longer than is read.
    TooLong,
    /// All bytes were taken; the frame goes on.
    More,
    /// So many bytes were taken, and end a frame.
    Complete(usize, Vec<u8>),
}

/// The part of a frame that has been read.
pub struct FrameReader {
    frame: Vec<u8>,
}

impl FrameReader {
    /// The bytes of the frame so far.
    pub closed spec fn held(self) -> Seq<u8> {
        self.frame@
    }

    /// Whether the bytes so far are short enough and hold no line feed.
    pub open spec fn valid(self) -> bool {
        &&& self.held().len() <= MAX_STRATUM_FRAME_BYTES
        &&& line_end(self.held()) is None
    }

    /// A reader at the start of a frame.
    pub fn new() -> (reader: FrameReader)
        ensures
            reader.valid(),
            reader.held() == Seq::<u8>::empty(),
    {
        FrameReader { frame: Vec::new() }
    }

    /// Takes bytes up to the end of the frame, or all of them.
    pub fn feed(&mut self, available: &[u8]) -> (step: FrameStep)
        requires
            old(self).valid(),
        ensures
            final(self).valid(),
            ({
                let take = match line_end(available@) {
                    Some(end) => end,
                    None => available@.len() as int,
                };
                let frame = old(self).held() + available@.take(take);
                if frame.len() > MAX_STRATUM_FRAME_BYTES {
                    step is TooLong && final(self).held() == old(self).held()
                } else if line_end(available@) is Some {
                    &&& step matches FrameStep::Complete(taken, bytes)
                    &&& taken == take
                    &&& bytes@ == stripped(frame)
                    &&& final(self).held() == Seq::<u8>::empty()
                } else {
                    step is More && final(self).held() == frame
                }
            }),
            step is TooLong ==> old(self).held().len() + available@.len() > 1_048_576,
            final(self).held().len() <= 1_048_576,
    {
        let mut at: usize = 0;
        let mut found = false;
        assert(available@.skip(0) =~= available@);
        while at < available.len() && !found
            invariant
                at <= available.len(),
                !found ==> line_end(available@) == (match line_end(available@.skip(at as int)) {
                    Some(end) => Some(end + at),
                    None => None,
                }),
                found ==> at > 0 && line_end(available@) == Some(at as int),
            decreases available.len() - at,
        {
            assert(available@.skip(at as int).skip(1) =~= available@.skip(at + 1));
            if available[at] == 0x0a {
                found = true;
            }
            at = at + 1;
        }
        let held: usize = self.frame.len();
        assert(!found ==> line_end(available@) is None);
        assert(available@.take(at as int).len() == at);
        if at > MAX_STRATUM_FRAME_BYTES - held {
            return FrameStep::TooLong;
        }
        let part = vstd::slice::slice_subrange(available, 0, at);
        assert(part@ =~= available@.take(at as int));
        let ghost start = self.held();
        self.frame.extend_from_slice(part);
        assert(self.frame@ =~= start + available@.take(at as int));
        if !found {
            proof {
                assert(available@.take(at as int) =~= available@);
                lemma_no_line_end(start, available@);
            }
            return FrameStep::More;
        }
        let mut bytes: Vec<u8> = Vec::new();
        core::mem::swap(&mut bytes, &mut self.frame);
        let ghost line = bytes@;
        bytes.pop();
        assert(bytes@ =~= line.drop_last());
        if bytes.len() > 0 && bytes[bytes.len() - 1] == 0x0d {
            bytes.pop();
        }
        assert(bytes@ =~= stripped(line));
        assert(self.held() =~= Seq::<u8>::empty());
        FrameStep::Complete(at, bytes)
    }

    /// What is left where the stream ends: the frame so far, unless it is empty.
    pub fn finish(self) -> (rest: Option<Vec<u8>>)
        ensures
            match rest {
                Some(bytes) => bytes@ == self.held() && bytes@.len() > 0,
                None => self.held().len() == 0,
            },
    {
        if self.frame.len() == 0 {
            None
        } else {
            Some(self.frame)
        }
    }
}

proof fn lemma_no_line_end(a: Seq<u8>, b: Seq<u8>)
    requires
        line_end(a) is None,
        line_end(b) is None,
    ensures
        line_end(a + b) is None,
    decreases a.len(),
{
    if a.len() == 0 {
        assert(a + b =~= b);
    } else {
        assert((a + b).skip(1) =~= a.skip(1) + b);
        lemma_no_line_end(a.skip(1), b);
    }
}

/// Bytes without a line feed before a line only move its end.
pub proof fn lemma_line_end_after(a: Seq<u8>, b: Seq<u8>)
    requires
        line_end(a) is None,
    ensures
        line_end(a + b) == match line_end(b) {
            Some(end) => Some(end + a.len()),
            None => None,
        },
    decreases a.len(),
{
    if a.len() == 0 {
        assert(a + b =~= b);
    } else {
        assert((a + b).skip(1) =~= a.skip(1) + b);
        lemma_line_end_after(a.skip(1), b);
    }
}

/// It does not matter how a line is cut on its way: after a first part that was
/// taken without a line feed, the rest completes the frame exactly as the whole
/// line at once would.
pub proof fn lemma_frames_do_not_depend_on_cuts(held: Seq<u8>, first: Seq<u8>, rest: Seq<u8>)
    requires
        line_end(first) is None,
        line_end(rest) is Some,
    ensures
        line_end(first + rest) == Some(line_end(rest)->0 + first.len()),
        (held + first) + rest.take(line_end(rest)->0) == held + (first + rest).take(
            line_end(first + rest)->0,
        ),
{
    lemma_line_end_after(first, rest);
    lemma_line_end_bound(rest);
    let end = line_end(rest)->0;
    assert((held + first) + rest.take(end) =~= held + (first + rest).take(end + first.len()));
}

proof fn lemma_line_end_bound(bytes: Seq<u8>)
    ensures
        line_end(bytes) matches Some(end) ==> 0 < end <= bytes.len() && bytes[end - 1] == 0x0a,
    decreases bytes.len(),
{
    if bytes.len() > 0 {
        lemma_line_end_bound(bytes.skip(1));
    }
}

/// What stands between the commas of a text, from its start to its end.
pub open spec fn pieces(text: Seq<char>) -> Seq<Seq<char>>
    decreases text.len(),
{
    if text.len() == 0 {
        seq![Seq::empty()]
    } else {
        let before = pieces(text.drop_last());
        if text.last() == ',' {
            before.push(Seq::empty())
        } else {
            before.drop_last().push(before.last().push(text.last()))
        }
    }
}

/// How many commas a text has.
pub open spec fn commas(text: Seq<char>) -> nat {
    text.filter(|c: char| c == ',').len()
}

proof fn pieces_are_some(text: Seq<char>)
    ensures
        pieces(text).len() > 0,
    decreases text.len(),
{
    if text.len() > 0 {
        pieces_are_some(text.drop_last());
    }
}

proof fn pieces_after(head: Seq<char>, tail: Seq<char>)
    requires
        forall|i: int| 0 <= i < tail.len() ==> #[trigger] tail[i] != ',',
    ensures
        pieces(head + tail) == pieces(head).drop_last().push(pieces(head).last() + tail),
        commas(head + tail) == commas(head),
    decreases tail.len(),
{
    reveal(Seq::filter);
    pieces_are_some(head);
    if tail.len() == 0 {
        assert(head + tail =~= head);
        assert(pieces(head).last() + tail =~= pieces(head).last());
        assert(pieces(head) =~= pieces(head).drop_last().push(pieces(head).last() + tail));
    } else {
        let shorter = tail.drop_last();
        assert forall|i: int| 0 <= i < shorter.len() implies #[trigger] shorter[i] != ',' by {
            assert(shorter[i] == tail[i]);
        }
        pieces_after(head, shorter);
        assert((head + tail).drop_last() =~= head + shorter);
        assert((head + tail).last() == tail[tail.len() - 1]);
        assert(pieces(head).last() + tail =~= (pieces(head).last() + shorter).push(tail.last()));
        assert(pieces(head + shorter).drop_last() =~= pieces(head).drop_last());
    }
}

proof fn decimals_have_no_comma(n: nat)
    ensures
        forall|i: int| 0 <= i < text::decimal(n).len() ==> #[trigger] text::decimal(n)[i] != ',',
{
    text::lemma_decimal_digits(n);
    assert forall|i: int| 0 <= i < text::decimal(n).len() implies #[trigger] text::decimal(n)[i]
        != ',' by {
        assert(text::is_digit(text::decimal(n)[i]));
    }
}

/// Reading a written list back gives its numbers: it has one comma fewer than
/// numbers, and what stands between its commas is each number in decimal, in
/// their order.
pub proof fn lemma_lists_are_read_back(values: Seq<u64>)
    requires
        values.len() > 0,
    ensures
        commas(number_list(values)) == values.len() - 1,
        pieces(number_list(values)).len() == values.len(),
        forall|k: int|
            0 <= k < values.len() ==> #[trigger] pieces(number_list(values))[k] == text::decimal(
                values[k] as nat,
            ),
        forall|k: int|
            0 <= k < values.len() ==> text::parsed(
                #[trigger] pieces(number_list(values))[k],
                u64::MAX,
            ) == Ok::<u64, text::ParseFailure>(values[k]),
    decreases values.len(),
{
    reveal(Seq::filter);
    let last = text::decimal(values.last() as nat);
    decimals_have_no_comma(values.last() as nat);
    let none = Seq::<char>::empty();
    if values.len() == 1 {
        pieces_after(none, last);
        assert(none + last =~= last);
        assert(pieces(none).last() + last =~= last);
    } else {
        let shorter = values.drop_last();
        lemma_lists_are_read_back(shorter);
        reveal_strlit(",");
        let head = number_list(shorter);
        assert((head + ","@).drop_last() =~= head);
        assert((head + ","@).last() == ',');
        assert(pieces(head + ","@) == pieces(head).push(none));
        assert(commas(head + ","@) == commas(head) + 1);
        pieces_after(head + ","@, last);
        assert(none + last =~= last);
        assert(pieces(head + ","@).drop_last() =~= pieces(head));
        assert(pieces(number_list(values)) == pieces(head).push(last));
        assert forall|k: int| 0 <= k < values.len() implies #[trigger] pieces(
            number_list(values),
        )[k] == text::decimal(values[k] as nat) by {
            if k < shorter.len() {
                assert(pieces(head)[k] == text::decimal(shorter[k] as nat));
            }
        }
    }
    assert forall|k: int| 0 <= k < values.len() implies text::parsed(
        #[trigger] pieces(number_list(values))[k],
        u64::MAX,
    ) == Ok::<u64, text::ParseFailure>(values[k]) by {
        text::lemma_decimal_round_trip(values[k], u64::MAX);
    }
}

/// Whether a part of a text begins at a place.
pub open spec fn stands_at(text: Seq<char>, at: int, part: Seq<char>) -> bool {
    0 <= at && at + part.len() <= text.len() && text.subrange(at, at + part.len()) == part
}

/// Whether a text holds numbers in decimal, in their order, with one comma
/// between each two.
pub open spec fn is_list_of(text: Seq<char>, values: Seq<u64>) -> bool {
    if values.len() == 0 {
        text.len() == 0
    } else {
        &&& pieces(text).len() == values.len()
        &&& forall|k: int|
            0 <= k < values.len() ==> #[trigger] pieces(text)[k] == text::decimal(values[k] as nat)
    }
}

/// Whether a text ends with the edges of a proof, as the last member of an
/// object.
pub open spec fn ends_with_edges(text: Seq<char>, list: Seq<char>, edges: Seq<u64>) -> bool {
    let end = ",\"pow\":["@ + list + "]}"@;
    &&& is_list_of(list, edges)
    &&& stands_at(text, text.len() - end.len(), end)
}

/// A share in JSON holds the edge bits, the height, the job and the nonce, each
/// in full behind its name, and ends with all edges of the proof.
pub proof fn lemma_shares_hold_every_field<'a>(share: SubmitParams<'a>)
    ensures
        stands_at(
            share.json_text(),
            0,
            "{\"edge_bits\":"@ + text::decimal(share.edge_bits as nat) + ",\"height\":"@,
        ),
        exists|at: int| #[trigger]
            stands_at(
                share.json_text(),
                at,
                ",\"height\":"@ + text::decimal(share.height as nat) + ",\"job_id\":"@,
            ),
        exists|at: int| #[trigger]
            stands_at(
                share.json_text(),
                at,
                ",\"job_id\":"@ + text::decimal(share.job_id as nat) + ",\"nonce\":"@,
            ),
        exists|at: int| #[trigger]
            stands_at(
                share.json_text(),
                at,
                ",\"nonce\":"@ + text::decimal(share.nonce as nat) + ",\"pow\":["@,
            ),
        exists|list: Seq<char>| #[trigger] ends_with_edges(share.json_text(), list, share.pow@),
{
    let json = share.json_text();
    let bits = "{\"edge_bits\":"@ + text::decimal(share.edge_bits as nat);
    let height = ",\"height\":"@ + text::decimal(share.height as nat);
    let job = ",\"job_id\":"@ + text::decimal(share.job_id as nat);
    let nonce = ",\"nonce\":"@ + text::decimal(share.nonce as nat);
    let list = number_list(share.pow@);
    let pow = ",\"pow\":["@ + list + "]}"@;
    assert(json =~= bits + height + job + nonce + pow);
    assert(stands_at(json, 0, bits + ",\"height\":"@)) by {
        assert(json.subrange(0, (bits + ",\"height\":"@).len() as int) =~= bits
            + ",\"height\":"@);
    }
    assert(stands_at(json, bits.len() as int, height + ",\"job_id\":"@)) by {
        let part = height + ",\"job_id\":"@;
        assert(json.subrange(bits.len() as int, bits.len() as int + part.len()) =~= part);
    }
    let at = (bits + height).len() as int;
    assert(stands_at(json, at, job + ",\"nonce\":"@)) by {
        let part = job + ",\"nonce\":"@;
        assert(json.subrange(at, at + part.len()) =~= part);
    }
    let at = (bits + height + job).len() as int;
    assert(stands_at(json, at, nonce + ",\"pow\":["@)) by {
        let part = nonce + ",\"pow\":["@;
        assert(json.subrange(at, at + part.len()) =~= part);
    }
    if share.pow@.len() > 0 {
        lemma_lists_are_read_back(share.pow@);
    }
    assert(json.subrange(json.len() - pow.len(), json.len() as int) =~= pow);
    assert(ends_with_edges(json, list, share.pow@));
}

/// A request is one line: it begins with its id in full, and ends with its
/// method and parameters and a line feed.  A share is sent as its JSON object,
/// a login with the name and the password it was given.
pub proof fn lemma_requests_hold_what_they_ask<'a>(request: Request<'a>, id: u64)
    ensures
        ({
            let line = request.line_text(id);
            let params = match request {
                Request::Login { login, password } =>
                    "{\"agent\":\"grin-cuckatoo-rust/0.1\",\"login\":"@ + json_string(login@)
                        + ",\"pass\":"@ + json_string(password@) + "}"@,
                Request::GetJobTemplate => "null"@,
                Request::Submit(share) => share.json_text(),
            };
            let method = match request {
                Request::Login { .. } => "\"login\""@,
                Request::GetJobTemplate => "\"getjobtemplate\""@,
                Request::Submit(_) => "\"submit\""@,
            };
            let start = "{\"id\":"@ + text::decimal(id as nat) + ",\"jsonrpc\":\"2.0\",\"method\":"@;
            let end = method + ",\"params\":"@ + params + "}\n"@;
            &&& line.len() == start.len() + end.len()
            &&& stands_at(line, 0, start)
            &&& stands_at(line, start.len() as int, end)
            &&& line.last() == '\n'
        }),
{
    reveal_strlit("}\n");
    let line = request.line_text(id);
    let start = "{\"id\":"@ + text::decimal(id as nat) + ",\"jsonrpc\":\"2.0\",\"method\":"@;
    let end = request.method_text() + ",\"params\":"@ + request.params_text() + "}\n"@;
    assert(line =~= start + end);
    assert(line.subrange(0, start.len() as int) =~= start);
    assert(line.subrange(start.len() as int, line.len() as int) =~= end);
}

/// A message with the method `job` is a push of its parameters, whatever else it
/// holds.  Any other message answers the request whose id it has, as a number or
/// as digits in a text, and keeps all it holds; without such an id it is ignored.
pub proof fn lemma_messages_are_sorted_by_method_and_id(message: MessageView, id: u64)
    ensures
        message.method == Some("job"@) ==> classified(message) == IncomingView::Push(
            message.params,
        ),
        message.method != Some("job"@) && message.id_number == Some(id) ==> classified(message)
            == IncomingView::Reply(id, message),
        message.method != Some("job"@) && message.id_number is None && message.id_text == Some(
            text::decimal(id as nat),
        ) ==> classified(message) == IncomingView::Reply(id, message),
        message.method != Some("job"@) && message.id_number is None && message.id_text is None
            ==> classified(message) is Ignored,
        message.method != Some("job"@) && message.id_number is None && message.id_text is Some
            && classified(message) is Ignored ==> message.id_text->0 != text::decimal(id as nat),
        classified(message) is Push ==> message.method == Some("job"@),
        classified(message) !is Invalid,
{
    text::lemma_decimal_round_trip(id, u64::MAX);
}

/// A reply is a success exactly where it has no error, or null in its place, and
/// a result that is not null.  A failure names the operation first.
pub proof fn lemma_replies_fail_for_an_error_or_no_result(
    message: MessageView,
    operation: Seq<char>,
)
    ensures
        reply_failure(message, operation) is None <==> {
            &&& message.error is None || message.error == Some("null"@)
            &&& message.result is Some
            &&& message.result != Some("null"@)
        },
        reply_failure(message, operation) matches Some(failure) ==> failure.len()
            >= operation.len() && failure.take(operation.len() as int) == operation,
        message.error is Some && message.error->0 != "null"@ ==> {
            &&& reply_failure(message, operation) is Some
            &&& ({
                let failure = reply_failure(message, operation)->0;
                let error = message.error->0;
                &&& failure.len() >= error.len()
                &&& failure.skip(failure.len() - error.len()) == error
            })
        },
{
    match reply_failure(message, operation) {
        Some(failure) => {
            assert(failure.take(operation.len() as int) =~= operation);
            if message.error is Some && message.error->0 != "null"@ {
                let error = message.error->0;
                assert(failure.skip(failure.len() - error.len()) =~= error);
            }
        },
        None => {},
    }
}

/// The first line of some bytes ends behind their first line feed, and bytes
/// without one hold no whole line.
pub proof fn lemma_lines_end_at_the_first_line_feed(bytes: Seq<u8>)
    ensures
        match line_end(bytes) {
            Some(end) => {
                &&& 0 < end <= bytes.len()
                &&& bytes[end - 1] == 0x0a
                &&& forall|i: int| 0 <= i < end - 1 ==> #[trigger] bytes[i] != 0x0a
            },
            None => forall|i: int| 0 <= i < bytes.len() ==> #[trigger] bytes[i] != 0x0a,
        },
    decreases bytes.len(),
{
    if bytes.len() > 0 && bytes[0] != 0x0a {
        let rest = bytes.skip(1);
        lemma_lines_end_at_the_first_line_feed(rest);
        match line_end(rest) {
            Some(end) => {
                assert forall|i: int| 0 <= i < end implies #[trigger] bytes[i] != 0x0a by {
                    if i > 0 {
                        assert(rest[i - 1] == bytes[i]);
                    }
                }
            },
            None => {
                assert forall|i: int| 0 <= i < bytes.len() implies #[trigger] bytes[i] != 0x0a by {
                    if i > 0 {
                        assert(rest[i - 1] == bytes[i]);
                    }
                }
            },
        }
    }
}

/// A frame is its line without the line end, one line feed or a carriage return
/// before it too, and nothing else is taken off.
pub proof fn lemma_frames_lose_their_line_end_only(frame: Seq<u8>)
    ensures
        stripped(frame + seq![0x0du8, 0x0au8]) == frame,
        frame.len() == 0 || frame.last() != 0x0d ==> stripped(frame + seq![0x0au8]) == frame,
{
    let long = frame + seq![0x0du8, 0x0au8];
    assert(long.drop_last() =~= frame + seq![0x0du8]);
    assert(long.drop_last().drop_last() =~= frame);
    let short = frame + seq![0x0au8];
    assert(short.drop_last() =~= frame);
}

/// The header of a job is half as long as its text, and each byte is two
/// hexadecimal digits of it, the higher first, in either case.  A text of an odd
/// length, or with a character that is no such digit, has no header.
pub proof fn lemma_headers_are_pairs_of_digits(text: Seq<char>)
    requires
        vstd::utf8::is_ascii_chars(text),
    ensures
        header_bytes(text) is Some <==> text.len() % 2 == 0 && forall|i: int|
            0 <= i < text.len() ==> {
                let c = #[trigger] text[i];
                '0' <= c <= '9' || 'a' <= c <= 'f' || 'A' <= c <= 'F'
            },
        header_bytes(text) matches Some(bytes) ==> {
            &&& 2 * bytes.len() == text.len()
            &&& forall|i: int|
                0 <= i < bytes.len() ==> {
                    let high = text[2 * i] as int;
                    let low = text[2 * i + 1] as int;
                    #[trigger] bytes[i] == 16 * (if high <= '9' as int {
                        high - '0' as int
                    } else if high <= 'F' as int {
                        high - 'A' as int + 10
                    } else {
                        high - 'a' as int + 10
                    }) + (if low <= '9' as int {
                        low - '0' as int
                    } else if low <= 'F' as int {
                        low - 'A' as int + 10
                    } else {
                        low - 'a' as int + 10
                    })
                }
        },
{
    vstd::utf8::is_ascii_chars_encode_utf8(text);
    let digits = hex_text::text_bytes(text);
    assert forall|i: int| 0 <= i < text.len() implies #[trigger] text[i] as int == digits[i] by {
        assert(text[i] as u8 == digits[i]);
        assert((text[i] as nat) < 128);
    }
    if hex_text::is_hex(digits) {
        assert forall|i: int| 0 <= i < text.len() implies ({
            let c = #[trigger] text[i];
            '0' <= c <= '9' || 'a' <= c <= 'f' || 'A' <= c <= 'F'
        }) by {
            assert(hex_text::is_hex_digit(digits[i]));
        }
        let bytes = hex_text::hex_pairs(digits);
        assert forall|i: int| 0 <= i < bytes.len() implies #[trigger] bytes[i] == 16
            * hex_text::hex_digit(digits[2 * i]) + hex_text::hex_digit(digits[2 * i + 1]) by {
            assert(hex_text::is_hex_digit(digits[2 * i]));
            assert(hex_text::is_hex_digit(digits[2 * i + 1]));
        }
        assert forall|i: int| 0 <= i < bytes.len() implies text[2 * i] as int == digits[2 * i]
            && text[2 * i + 1] as int == (#[trigger] digits[2 * i + 1]) by {
        }
    } else if text.len() % 2 == 0 {
        let i = choose|i: int|
            0 <= i < digits.len() && !hex_text::is_hex_digit(#[trigger] digits[i]);
        assert(text[i] as int == digits[i]);
    }
}

/// A frame is read as a message exactly where it is JSON, and each part of the
/// message is the member of that name: the parameters, the error and the result
/// in full, the method as a text, and the id as a number or a text.
pub proof fn lemma_messages_are_read_by_name(frame: Seq<u8>)
    ensures
        decoded_message(frame) is None <==> json_member(frame, "method"@) is None,
        decoded_message(frame) matches Some(message) ==> {
            &&& json_member(frame, "method"@)->0 is Some ==> message.method == json_member(
                frame,
                "method"@,
            )->0->0.text
            &&& json_member(frame, "params"@)->0 is Some ==> message.params == Some(
                json_member(frame, "params"@)->0->0.json,
            )
            &&& json_member(frame, "id"@)->0 is Some ==> message.id_number == json_member(
                frame,
                "id"@,
            )->0->0.number && message.id_text == json_member(frame, "id"@)->0->0.text
            &&& json_member(frame, "error"@)->0 is Some ==> message.error == Some(
                json_member(frame, "error"@)->0->0.json,
            )
            &&& json_member(frame, "result"@)->0 is Some ==> message.result == Some(
                json_member(frame, "result"@)->0->0.json,
            )
            &&& json_member(frame, "method"@)->0 is None ==> message.method is None
            &&& json_member(frame, "params"@)->0 is None ==> message.params is None
            &&& json_member(frame, "id"@)->0 is None ==> message.id_number is None
                && message.id_text is None
            &&& json_member(frame, "error"@)->0 is None ==> message.error is None
            &&& json_member(frame, "result"@)->0 is None ==> message.result is None
        },
{
}

/// What the inside of a JSON string stands for: a backslash begins an escape, of
/// one letter or of a code in four hexadecimal digits, and everything else stands
/// for itself.
pub open spec fn unescaped(inside: Seq<char>) -> Seq<char>
    decreases inside.len(),
{
    if inside.len() == 0 {
        Seq::empty()
    } else if inside[0] != '\\' {
        seq![inside[0]] + unescaped(inside.skip(1))
    } else if inside.len() >= 6 && inside[1] == 'u' {
        seq![text::hex_chars_value(inside.subrange(2, 6)) as char] + unescaped(inside.skip(6))
    } else if inside.len() >= 2 {
        let c = if inside[1] == 'b' {
            '\u{8}'
        } else if inside[1] == 't' {
            '\t'
        } else if inside[1] == 'n' {
            '\n'
        } else if inside[1] == 'f' {
            '\u{c}'
        } else if inside[1] == 'r' {
            '\r'
        } else {
            inside[1]
        };
        seq![c] + unescaped(inside.skip(2))
    } else {
        Seq::empty()
    }
}

proof fn all_escaped_from_the_front(text: Seq<char>)
    requires
        text.len() > 0,
    ensures
        all_escaped(text) == escaped(text[0]) + all_escaped(text.skip(1)),
    decreases text.len(),
{
    let none = Seq::<char>::empty();
    if text.len() == 1 {
        assert(text.drop_last() =~= none);
        assert(text.skip(1) =~= none);
        assert(none + escaped(text[0]) =~= escaped(text[0]) + none);
    } else {
        let head = text.drop_last();
        all_escaped_from_the_front(head);
        assert(text.skip(1).drop_last() =~= head.skip(1));
        assert(text.skip(1).last() == text.last());
        assert((escaped(text[0]) + all_escaped(head.skip(1))) + escaped(text.last())
            =~= escaped(text[0]) + (all_escaped(head.skip(1)) + escaped(text.last())));
    }
}

proof fn escapes_are_read(c: char, rest: Seq<char>)
    ensures
        unescaped(escaped(c) + rest) == seq![c] + unescaped(rest),
        forall|i: int| 0 <= i < escaped(c).len() ==> (#[trigger] escaped(c)[i] as nat) >= 0x20,
{
    let whole = escaped(c) + rest;
    let n = escaped(c).len() as int;
    assert(whole.skip(n) =~= rest);
    if n == 6 {
        let code = whole.subrange(2, 6);
        assert(code =~= seq![
            '0',
            '0',
            text::hex_char(c as nat / 16),
            text::hex_char(c as nat % 16),
        ]);
        let three = code.drop_last();
        let two = three.drop_last();
        let one = two.drop_last();
        assert(one.drop_last() =~= Seq::<char>::empty());
        assert(text::hex_chars_value(one.drop_last()) == 0);
        assert(text::hex_chars_value(one) == 0);
        assert(text::hex_chars_value(two) == 0);
        assert(text::hex_chars_value(three) == c as nat / 16);
        assert(text::hex_chars_value(code) == c as nat);
    }
}

/// A text in JSON is read back as it was: it stands between two quotes, holds no
/// control character, and every escape in it stands for the character it was
/// written for.
pub proof fn lemma_json_strings_are_read_back(text: Seq<char>)
    ensures
        ({
            let json = json_string(text);
            let inside = json.subrange(1, json.len() - 1);
            &&& json.len() >= 2
            &&& json[0] == '"'
            &&& json.last() == '"'
            &&& unescaped(inside) == text
            &&& forall|i: int| 0 <= i < inside.len() ==> (#[trigger] inside[i] as nat) >= 0x20
        }),
    decreases text.len(),
{
    let json = json_string(text);
    assert(json.subrange(1, json.len() - 1) =~= all_escaped(text));
    if text.len() > 0 {
        let rest = text.skip(1);
        lemma_json_strings_are_read_back(rest);
        let other = json_string(rest);
        assert(other.subrange(1, other.len() - 1) =~= all_escaped(rest));
        all_escaped_from_the_front(text);
        escapes_are_read(text[0], all_escaped(rest));
        assert(seq![text[0]] + rest =~= text);
        let inside = all_escaped(text);
        let first = escaped(text[0]);
        let further = all_escaped(rest);
        assert forall|i: int| 0 <= i < inside.len() implies (#[trigger] inside[i] as nat)
            >= 0x20 by {
            if i < first.len() {
                assert(inside[i] == first[i]);
            } else {
                assert(inside[i] == further[i - first.len()]);
            }
        }
    }
}

} // verus!
