//! Handing exported files to PrintFlow through its local API.

use vstd::prelude::*;

use crate::text::{
    chars_of, copy_range, decimal, encoded, eq_ignore_case, find_char, find_part,
    find_second_word, first_at, first_of, holds_part, is_digit, is_readable, is_white_space, is_word,
    law_decimal_reads_back, law_words_stand_between_white_space, lemma_decimal,
    lemma_encoding_is_one_to_one, lemma_first_at_is, lemma_first_of_is, push_decimal,
    read_unsigned, same_but_case, same_text, second_word, stands_at, string_of, trim_start,
    trimmed_start, unsigned_number,
};

verus! {

/// Why a file was not handed over.
#[derive(Debug, Clone)]
pub enum PrintFlowError {
    /// There is no such file.
    MissingFile(String),
    /// The file is no SVG.
    NotSvg,
    /// PrintFlow does not run.
    NoService,
    /// What came back is no HTTP response.
    InvalidResponse,
    /// PrintFlow refused the file.
    Refused { status: u16, body: String },
}

impl PrintFlowError {
    /// The text shown for the error.
    pub open spec fn spec_message(&self) -> Seq<char> {
        match self {
            PrintFlowError::MissingFile(path) => "SVG 文件不存在："@ + path@,
            PrintFlowError::NotSvg => "PrintFlow 只接受 .svg 文件"@,
            PrintFlowError::NoService => "未找到 PrintFlow 本地 API；请先启动 PrintFlow"@,
            PrintFlowError::InvalidResponse => "PrintFlow 返回了无效 HTTP 响应"@,
            PrintFlowError::Refused { status, body } => "PrintFlow 上传失败（HTTP "@ + decimal(
                *status as nat,
            ) + "）："@ + body@,
        }
    }

    /// The text shown for the error.
    pub fn message(&self) -> (res: String)
        ensures
            res@ == self.spec_message(),
    {
        match self {
            PrintFlowError::MissingFile(path) => {
                let mut res = "SVG 文件不存在：".to_owned();
                res.push_str(path.as_str());
                res
            },
            PrintFlowError::NotSvg => "PrintFlow 只接受 .svg 文件".to_owned(),
            PrintFlowError::NoService => "未找到 PrintFlow 本地 API；请先启动 PrintFlow".to_owned(),
            PrintFlowError::InvalidResponse => "PrintFlow 返回了无效 HTTP 响应".to_owned(),
            PrintFlowError::Refused { status, body } => {
                let mut res = "PrintFlow 上传失败（HTTP ".to_owned();
                push_decimal(&mut res, *status as u64);
                res.push_str("）：");
                res.push_str(body.as_str());
                res
            },
        }
    }
}

// ---------------------------------------------------------------------------
// JSON
// ---------------------------------------------------------------------------

/// A key in its quotes.
pub open spec fn quoted(key: Seq<char>) -> Seq<char> {
    seq!['"'] + key + seq!['"']
}

/// What follows the first occurrence of a key and a colon.
pub open spec fn field_value(json: Seq<char>, key: Seq<char>) -> Option<Seq<char>> {
    match first_at(json, quoted(key), 0) {
        None => None,
        Some(at) => {
            let rest = trimmed_start(json.skip(at + quoted(key).len()));
            if rest.len() > 0 && rest[0] == ':' {
                Some(trimmed_start(rest.skip(1)))
            } else {
                None
            }
        },
    }
}

fn find_field_value(json: &str, key: &str) -> (res: Option<Vec<char>>)
    ensures
        match res {
            Some(value) => field_value(json@, key@) == Some(value@),
            None => field_value(json@, key@) is None,
        },
{
    let text = chars_of(json);
    let len: usize = text.len();
    let mut marker: Vec<char> = Vec::new();
    marker.push('"');
    let mut name = chars_of(key);
    marker.append(&mut name);
    marker.push('"');
    assert(marker@ =~= quoted(key@));
    let at: usize = match find_part(text.as_slice(), marker.as_slice()) {
        Some(at) => at,
        None => {
            return None;
        },
    };
    let behind = copy_range(text.as_slice(), at + marker.len(), len);
    assert(behind@ =~= json@.skip(at + quoted(key@).len()));
    let rest = trim_start(behind.as_slice());
    if rest.len() == 0 || rest[0] != ':' {
        return None;
    }
    let value = copy_range(rest.as_slice(), 1, rest.len());
    assert(value@ =~= rest@.skip(1));
    Some(trim_start(value.as_slice()))
}

/// The text of a field: what stands between its quotes.
pub open spec fn string_field(json: Seq<char>, key: Seq<char>) -> Option<Seq<char>> {
    match field_value(json, key) {
        None => None,
        Some(value) => if value.len() > 0 && value[0] == '"' && first_of(value, '"', 1)
            < value.len() {
            Some(value.subrange(1, first_of(value, '"', 1)))
        } else {
            None
        },
    }
}

/// The text of a field.
pub fn json_string_field(json: &str, key: &str) -> (res: Option<String>)
    ensures
        match res {
            Some(text) => string_field(json@, key@) == Some(text@),
            None => string_field(json@, key@) is None,
        },
{
    let value = match find_field_value(json, key) {
        Some(value) => value,
        None => {
            return None;
        },
    };
    if value.len() == 0 || value[0] != '"' {
        return None;
    }
    let end: usize = find_char(value.as_slice(), '"', 1);
    if end == value.len() {
        return None;
    }
    let text = copy_range(value.as_slice(), 1, end);
    Some(string_of(text.as_slice()))
}

/// Where the digits at the start of a text end.
pub open spec fn digits_end(s: Seq<char>, from: int) -> int
    decreases s.len() - from,
{
    if from < s.len() && is_digit(s[from]) {
        digits_end(s, from + 1)
    } else {
        from
    }
}

/// The number of a field: its digits, if they are a number of sixteen bits.
pub open spec fn number_field(json: Seq<char>, key: Seq<char>) -> Option<nat> {
    match field_value(json, key) {
        None => None,
        Some(value) => unsigned_number(value.take(digits_end(value, 0)), 65535),
    }
}

/// The number of a field.
pub fn json_number_field(json: &str, key: &str) -> (res: Option<u16>)
    ensures
        match res {
            Some(number) => number_field(json@, key@) == Some(number as nat),
            None => number_field(json@, key@) is None,
        },
{
    let value = match find_field_value(json, key) {
        Some(value) => value,
        None => {
            return None;
        },
    };
    let mut end: usize = 0;
    while end < value.len() && '0' <= value[end] && value[end] <= '9'
        invariant
            end <= value@.len(),
            digits_end(value@, 0) == digits_end(value@, end as int),
        decreases value@.len() - end,
    {
        end = end + 1;
    }
    let digits = copy_range(value.as_slice(), 0, end);
    assert(digits@ =~= value@.take(end as int));
    match read_unsigned(digits.as_slice(), 65535) {
        Some(number) => Some(number as u16),
        None => None,
    }
}

/// A character as it stands in a JSON text.
pub open spec fn json_code(c: char) -> Seq<char> {
    if c == '\\' {
        seq!['\\', '\\']
    } else if c == '"' {
        seq!['\\', '"']
    } else if c == '\n' {
        seq!['\\', 'n']
    } else if c == '\r' {
        seq!['\\', 'r']
    } else if c == '\t' {
        seq!['\\', 't']
    } else {
        seq![c]
    }
}

/// A text as it stands in JSON.
pub open spec fn json_escaped(value: Seq<char>) -> Seq<char> {
    encoded(value, |c: char| json_code(c))
}

/// A text as it stands in JSON.
pub fn json_escape(value: &str) -> (res: String)
    ensures
        res@ == json_escaped(value@),
{
    let chars = chars_of(value);
    let mut res: String = String::new();
    let ghost code = |c: char| json_code(c);
    let ghost goal = json_escaped(value@);
    assert(value@.skip(0) =~= value@);
    assert(res@ + goal =~= goal);
    for i in 0..chars.len()
        invariant
            chars@ == value@,
            code == (|c: char| json_code(c)),
            res@ + encoded(value@.skip(i as int), code) == goal,
    {
        let c = chars[i];
        let ghost before = res@;
        proof {
            let rest = value@.skip(i as int);
            assert(rest[0] == c);
            assert(rest.skip(1) =~= value@.skip(i + 1));
        }
        if c == '\\' {
            res.push('\\');
            res.push('\\');
        } else if c == '"' {
            res.push('\\');
            res.push('"');
        } else if c == '\n' {
            res.push('\\');
            res.push('n');
        } else if c == '\r' {
            res.push('\\');
            res.push('r');
        } else if c == '\t' {
            res.push('\\');
            res.push('t');
        } else {
            res.push(c);
        }
        assert(res@ =~= before + json_code(c));
        proof {
            let rest = encoded(value@.skip(i + 1), code);
            assert(res@ + rest =~= before + (json_code(c) + rest));
        }
    }
    assert(value@.skip(value@.len() as int) =~= Seq::empty());
    assert(res@ =~= goal);
    res
}

/// Texts that differ stand differently in JSON.
pub proof fn law_escaping_is_one_to_one(a: Seq<char>, b: Seq<char>)
    requires
        json_escaped(a) == json_escaped(b),
    ensures
        a == b,
{
    let code = |c: char| json_code(c);
    assert forall|c: char, d: char, x: Seq<char>, y: Seq<char>|
        #![trigger code(c) + x, code(d) + y]
        code(c) + x == code(d) + y implies c == d by {
        let s = code(c) + x;
        let t = code(d) + y;
        assert(s[0] == json_code(c)[0]);
        assert(t[0] == json_code(d)[0]);
        if json_code(c).len() == 2 {
            assert(s[1] == json_code(c)[1]);
        }
        if json_code(d).len() == 2 {
            assert(t[1] == json_code(d)[1]);
        }
    }
    assert(is_readable(code));
    lemma_encoding_is_one_to_one(a, b, code);
}

// ---------------------------------------------------------------------------
// Where PrintFlow listens
// ---------------------------------------------------------------------------

/// An address of the local API.
#[derive(Debug, Clone)]
pub struct Endpoint {
    pub host: String,
    pub port: u16,
}

/// An address by its value.
pub open spec fn endpoint_of(endpoint: Endpoint) -> (Seq<char>, u16) {
    (endpoint.host@, endpoint.port)
}

pub open spec fn endpoints_of(endpoints: Seq<Endpoint>) -> Seq<(Seq<char>, u16)> {
    endpoints.map_values(|endpoint: Endpoint| endpoint_of(endpoint))
}

/// The address that PrintFlow has written down.
pub open spec fn written_endpoint(json: Seq<char>) -> Option<(Seq<char>, u16)> {
    match (string_field(json, "host"@), number_field(json, "port"@)) {
        (Some(host), Some(port)) => Some((host, port as u16)),
        _ => None,
    }
}

/// Reads the address that PrintFlow has written down.
pub fn parse_printflow_endpoint(json: &str) -> (res: Option<Endpoint>)
    ensures
        match res {
            Some(endpoint) => written_endpoint(json@) == Some(endpoint_of(endpoint)),
            None => written_endpoint(json@) is None,
        },
{
    match json_string_field(json, "host") {
        Some(host) => match json_number_field(json, "port") {
            Some(port) => Some(Endpoint { host, port }),
            None => None,
        },
        None => None,
    }
}

/// The first port that PrintFlow may listen on.
pub const FIRST_PORT: u16 = 47821;

/// The last port that PrintFlow may listen on.
pub const LAST_PORT: u16 = 47840;

/// Whether a host is this machine.
pub open spec fn is_local(host: Seq<char>) -> bool {
    host == "127.0.0.1"@ || host == "localhost"@
}

/// The ports that PrintFlow may listen on, on this machine.
pub open spec fn usual_endpoints() -> Seq<(Seq<char>, u16)> {
    Seq::new(
        (LAST_PORT - FIRST_PORT + 1) as nat,
        |i: int| ("127.0.0.1"@, (FIRST_PORT + i) as u16),
    )
}

/// The addresses to ask, in this order: the one that is written down, if it is on this
/// machine, and the ports that PrintFlow may listen on.
pub open spec fn spec_candidates(written: Option<Seq<char>>) -> Seq<(Seq<char>, u16)> {
    match written {
        Some(json) => match written_endpoint(json) {
            Some(endpoint) => if is_local(endpoint.0) {
                seq![endpoint] + usual_endpoints()
            } else {
                usual_endpoints()
            },
            None => usual_endpoints(),
        },
        None => usual_endpoints(),
    }
}

/// The addresses to ask; `written` is what PrintFlow has written down.
pub fn endpoint_candidates(written: Option<&str>) -> (res: Vec<Endpoint>)
    ensures
        endpoints_of(res@) == spec_candidates(
            match written {
                Some(json) => Some(json@),
                None => None,
            },
        ),
{
    let mut res: Vec<Endpoint> = Vec::new();
    if let Some(json) = written {
        if let Some(endpoint) = parse_printflow_endpoint(json) {
            if same_text(endpoint.host.as_str(), "127.0.0.1") || same_text(
                endpoint.host.as_str(),
                "localhost",
            ) {
                res.push(endpoint);
            }
        }
    }
    let ghost first = endpoints_of(res@);
    let mut port: u16 = FIRST_PORT;
    assert(endpoints_of(res@) =~= first + usual_endpoints().take(0));
    while port <= LAST_PORT
        invariant
            FIRST_PORT <= port <= LAST_PORT + 1,
            endpoints_of(res@) == first + usual_endpoints().take(port - FIRST_PORT),
        decreases LAST_PORT + 1 - port,
    {
        let ghost before = res@;
        let endpoint = Endpoint { host: "127.0.0.1".to_owned(), port };
        res.push(endpoint);
        proof {
            assert(endpoints_of(res@) =~= endpoints_of(before).push(endpoint_of(endpoint)));
            assert(usual_endpoints().take(port - FIRST_PORT + 1) =~= usual_endpoints().take(
                port - FIRST_PORT,
            ).push(endpoint_of(endpoint)));
            assert(endpoints_of(res@) =~= first + usual_endpoints().take(port - FIRST_PORT + 1));
        }
        port = port + 1;
    }
    assert(endpoints_of(res@) =~= first + usual_endpoints());
    res
}

/// Only this machine is asked.
pub proof fn law_only_this_machine_is_asked(written: Option<Seq<char>>, i: int)
    requires
        0 <= i < spec_candidates(written).len(),
    ensures
        is_local(spec_candidates(written)[i].0),
{
}

/// What to do to find PrintFlow.
#[derive(Debug, Clone, Copy, PartialEq, Eq, Structural)]
pub enum Discovery {
    /// Ask this candidate.
    Ask(usize),
    /// This candidate is PrintFlow.
    Found(usize),
    /// No candidate is.
    Missing,
}

/// Whether the candidate with this index answered that it is well.
pub open spec fn is_healthy(statuses: Seq<Option<u16>>, i: int) -> bool {
    statuses[i] == Some(200u16)
}

/// The next candidate to ask; `statuses` holds what the first of the `count` candidates
/// answered. The first healthy one is taken.
pub fn discover_printflow_endpoint(count: usize, statuses: &[Option<u16>]) -> (res: Discovery)
    ensures
        match res {
            Discovery::Found(i) => i < statuses@.len() && is_healthy(statuses@, i as int)
                && forall|k: int| 0 <= k < i ==> !#[trigger] is_healthy(statuses@, k),
            Discovery::Ask(i) => i == statuses@.len() && i < count && forall|k: int|
                0 <= k < statuses@.len() ==> !#[trigger] is_healthy(statuses@, k),
            Discovery::Missing => statuses@.len() >= count && forall|k: int|
                0 <= k < statuses@.len() ==> !#[trigger] is_healthy(statuses@, k),
        },
{
    for i in 0..statuses.len()
        invariant
            forall|k: int| 0 <= k < i ==> !#[trigger] is_healthy(statuses@, k),
    {
        if let Some(status) = statuses[i] {
            if status == 200 {
                return Discovery::Found(i);
            }
        }
    }
    if statuses.len() < count {
        Discovery::Ask(statuses.len())
    } else {
        Discovery::Missing
    }
}

// ---------------------------------------------------------------------------
// HTTP
// ---------------------------------------------------------------------------

/// The text in front of a request's body of `length` bytes; a body is JSON.
pub open spec fn spec_request_head(
    method: Seq<char>,
    path: Seq<char>,
    host: Seq<char>,
    port: nat,
    length: Option<nat>,
) -> Seq<char> {
    method + " "@ + path + " HTTP/1.1\r\nHost: "@ + host + ":"@ + decimal(port)
        + "\r\nConnection: close\r\n"@ + (match length {
        Some(_) => "Content-Type: application/json\r\n"@,
        None => ""@,
    }) + "Content-Length: "@ + decimal(
        match length {
            Some(length) => length,
            None => 0,
        },
    ) + "\r\n\r\n"@
}

/// The text in front of a request's body.
pub fn request_head(method: &str, path: &str, host: &str, port: u16, length: Option<usize>) -> (res:
    String)
    ensures
        res@ == spec_request_head(
            method@,
            path@,
            host@,
            port as nat,
            match length {
                Some(length) => Some(length as nat),
                None => None,
            },
        ),
{
    let mut res: String = method.to_owned();
    res.push_str(" ");
    res.push_str(path);
    res.push_str(" HTTP/1.1\r\nHost: ");
    res.push_str(host);
    res.push_str(":");
    push_decimal(&mut res, port as u64);
    res.push_str("\r\nConnection: close\r\n");
    match length {
        Some(length) => {
            res.push_str("Content-Type: application/json\r\n");
            res.push_str("Content-Length: ");
            push_decimal(&mut res, length as u64);
        },
        None => {
            res.push_str("");
            res.push_str("Content-Length: ");
            push_decimal(&mut res, 0);
        },
    }
    res.push_str("\r\n\r\n");
    res
}

/// A response of the local API.
#[derive(Debug, Clone)]
pub struct HttpResponse {
    pub status: u16,
    pub body: String,
}

/// The first line of a response.
pub open spec fn status_line(response: Seq<char>) -> Seq<char> {
    match first_at(response, "\r\n"@, 0) {
        Some(at) => response.take(at),
        None => response,
    }
}

/// What follows the first empty line behind the first line of a response; nothing if
/// there is none.
pub open spec fn response_body(response: Seq<char>) -> Seq<char> {
    match first_at(response, "\r\n"@, 0) {
        Some(at) => {
            let rest = response.skip(at + "\r\n"@.len());
            match first_at(rest, "\r\n\r\n"@, 0) {
                Some(end) => rest.skip(end + "\r\n\r\n"@.len()),
                None => Seq::empty(),
            }
        },
        None => Seq::empty(),
    }
}

/// The status of a response: the second word of its first line.
pub open spec fn response_status(response: Seq<char>) -> Option<nat> {
    match second_word(status_line(response)) {
        Some(word) => unsigned_number(word, 65535),
        None => None,
    }
}

/// Reads a response.
pub fn parse_http_response(response: &str) -> (res: Result<HttpResponse, PrintFlowError>)
    ensures
        match res {
            Ok(parsed) => response_status(response@) == Some(parsed.status as nat) && parsed.body@
                == response_body(response@),
            Err(error) => error is InvalidResponse && response_status(response@) is None,
        },
{
    let text = chars_of(response);
    let line_break = chars_of("\r\n");
    let gap = chars_of("\r\n\r\n");
    let mut line = copy_range(text.as_slice(), 0, text.len());
    let mut body: Vec<char> = Vec::new();
    match find_part(text.as_slice(), line_break.as_slice()) {
        Some(at) => {
            line = copy_range(text.as_slice(), 0, at);
            assert(line@ =~= response@.take(at as int));
            let rest = copy_range(text.as_slice(), at + line_break.len(), text.len());
            assert(rest@ =~= response@.skip(at + "\r\n"@.len()));
            if let Some(end) = find_part(rest.as_slice(), gap.as_slice()) {
                body = copy_range(rest.as_slice(), end + gap.len(), rest.len());
                assert(body@ =~= rest@.skip(end + "\r\n\r\n"@.len()));
            }
        },
        None => {
            assert(line@ =~= response@);
        },
    }
    assert(line@ == status_line(response@));
    assert(body@ == response_body(response@));
    match find_second_word(line.as_slice()) {
        Some(word) => match read_unsigned(word.as_slice(), 65535) {
            Some(status) => Ok(
                HttpResponse { status: status as u16, body: string_of(body.as_slice()) },
            ),
            None => Err(PrintFlowError::InvalidResponse),
        },
        None => Err(PrintFlowError::InvalidResponse),
    }
}

// ---------------------------------------------------------------------------
// Uploads
// ---------------------------------------------------------------------------

/// Whether a file can be handed over: it is there, under an absolute path, and its
/// extension says that it is an SVG.
pub fn check_upload(path: &str, absolute: bool, is_file: bool, extension: Option<&str>) -> (res:
    Result<(), PrintFlowError>)
    ensures
        match res {
            Ok(_) => absolute && is_file && extension is Some && same_but_case(
                extension->0@,
                "svg"@,
            ),
            Err(PrintFlowError::MissingFile(missing)) => !(absolute && is_file) && missing@
                == path@,
            Err(PrintFlowError::NotSvg) => absolute && is_file && (extension is None
                || !same_but_case(extension->0@, "svg"@)),
            Err(_) => false,
        },
{
    if !absolute || !is_file {
        return Err(PrintFlowError::MissingFile(path.to_owned()));
    }
    match extension {
        Some(extension) => if eq_ignore_case(extension, "svg") {
            Ok(())
        } else {
            Err(PrintFlowError::NotSvg)
        },
        None => Err(PrintFlowError::NotSvg),
    }
}

/// The body of an import request: the path of the file.
pub open spec fn spec_import_body(path: Seq<char>) -> Seq<char> {
    "{\"path\":\""@ + json_escaped(path) + "\"}"@
}

/// The body of an import request.
pub fn import_body(path: &str) -> (res: String)
    ensures
        res@ == spec_import_body(path@),
{
    let mut res = "{\"path\":\"".to_owned();
    res.push_str(json_escape(path).as_str());
    res.push_str("\"}");
    res
}

/// What an upload came to: PrintFlow takes a file by a status of the two hundreds.
pub fn upload_to_printflow(path: &str, response: HttpResponse) -> (res: Result<
    String,
    PrintFlowError,
>)
    ensures
        match res {
            Ok(message) => 200 <= response.status < 300 && message@ == "已提交 PrintFlow："@
                + path@,
            Err(PrintFlowError::Refused { status, body }) => !(200 <= response.status < 300)
                && status == response.status && body@ == response.body@,
            Err(_) => false,
        },
{
    if response.status < 200 || response.status >= 300 {
        return Err(
            PrintFlowError::Refused { status: response.status, body: response.body },
        );
    }
    let mut message = "已提交 PrintFlow：".to_owned();
    message.push_str(path);
    Ok(message)
}

/// What is told of PrintFlow's window.
pub open spec fn focus_status(focused: bool) -> Seq<char> {
    if focused {
        "PrintFlow 窗口已置前。"@
    } else {
        "已提交 PrintFlow，但未能自动切换窗口；请手动切换到 PrintFlow。"@
    }
}

/// A summary with what is told of PrintFlow's window.
pub open spec fn focused_summary(summary: Seq<char>, focused: bool) -> Seq<char> {
    summary + "\n"@ + focus_status(focused)
}

/// Hands a file over and, if that went well, brings PrintFlow's window to the front.
pub fn upload_and_focus_printflow<U, F>(upload: U, focus: F) -> (res: Result<String, String>) where
    U: FnOnce() -> Result<String, String>,
    F: FnOnce() -> bool,

    requires
        upload.requires(()),
        focus.requires(()),
    ensures
        match res {
            Ok(text) => exists|summary: String, focused: bool|
                upload.ensures((), Ok(summary)) && focus.ensures((), focused) && text@
                    == #[trigger] focused_summary(summary@, focused),
            Err(error) => upload.ensures((), Err(error)),
        },
{
    let summary = match upload() {
        Ok(summary) => summary,
        Err(error) => {
            return Err(error);
        },
    };
    let focused = focus();
    let ghost given = summary;
    let mut text = summary;
    text.push_str("\n");
    if focused {
        text.push_str("PrintFlow 窗口已置前。");
    } else {
        text.push_str("已提交 PrintFlow，但未能自动切换窗口；请手动切换到 PrintFlow。");
    }
    assert(text@ == focused_summary(given@, focused));
    Ok(text)
}

// ---------------------------------------------------------------------------
// What is written can be read
// ---------------------------------------------------------------------------

/// What a reader of JSON makes of the inside of a string.
pub open spec fn json_read(s: Seq<char>) -> Seq<char>
    decreases s.len(),
{
    if s.len() == 0 {
        Seq::empty()
    } else if s[0] != '\\' || s.len() == 1 {
        seq![s[0]] + json_read(s.skip(1))
    } else {
        let c = s[1];
        seq![
            if c == 'n' {
                '\n'
            } else if c == 'r' {
                '\r'
            } else if c == 't' {
                '\t'
            } else {
                c
            },
        ] + json_read(s.skip(2))
    }
}

/// A reader of JSON reads what was written.
pub proof fn law_escaped_texts_read_back(value: Seq<char>)
    ensures
        json_read(json_escaped(value)) == value,
    decreases value.len(),
{
    if value.len() > 0 {
        let code = json_code(value[0]);
        let rest = json_escaped(value.skip(1));
        let whole = json_escaped(value);
        assert(whole == code + rest);
        law_escaped_texts_read_back(value.skip(1));
        assert(whole[0] == code[0]);
        if code.len() == 2 {
            assert(whole[1] == code[1]);
            assert(whole.skip(2) =~= rest);
        } else {
            assert(whole.skip(1) =~= rest);
        }
        assert(json_read(whole) == seq![value[0]] + json_read(rest));
        assert(value =~= seq![value[0]] + value.skip(1));
    }
}

/// A text ends where its quotes do: no quote inside of it stands alone, and it holds no line
/// breaks.
pub proof fn law_escaped_texts_end_where_they_end(value: Seq<char>, i: int)
    requires
        0 <= i < json_escaped(value).len(),
    ensures
        json_escaped(value)[i] != '\n',
        json_escaped(value)[i] != '\r',
        json_escaped(value)[i] == '"' ==> i > 0 && json_escaped(value)[i - 1] == '\\',
    decreases value.len(),
{
    if value.len() > 0 {
        let code = json_code(value[0]);
        let rest = json_escaped(value.skip(1));
        let whole = json_escaped(value);
        assert(whole == code + rest);
        if i >= code.len() {
            law_escaped_texts_end_where_they_end(value.skip(1), i - code.len());
            assert(whole[i] == rest[i - code.len()]);
            if i > code.len() {
                assert(whole[i - 1] == rest[i - 1 - code.len()]);
            }
        } else {
            assert(whole[i] == code[i]);
            if i > 0 {
                assert(whole[i - 1] == code[i - 1]);
            }
        }
    }
}

proof fn lemma_digits_end(digits: Seq<char>, rest: Seq<char>, from: int)
    requires
        forall|i: int| 0 <= i < digits.len() ==> is_digit(#[trigger] digits[i]),
        rest.len() > 0 ==> !is_digit(rest[0]),
        0 <= from <= digits.len(),
    ensures
        digits_end(digits + rest, from) == digits.len(),
    decreases digits.len() - from,
{
    if from < digits.len() {
        assert((digits + rest)[from] == digits[from]);
        lemma_digits_end(digits, rest, from + 1);
    } else if rest.len() > 0 {
        assert((digits + rest)[from] == rest[0]);
    }
}

/// An address that PrintFlow writes down is the address that is read.
pub proof fn law_written_addresses_read_back(host: Seq<char>, port: u16, rest: Seq<char>)
    requires
        forall|i: int| 0 <= i < host.len() ==> host[i] != '"',
        host != "port"@,
        rest.len() > 0 ==> !is_digit(rest[0]),
    ensures
        written_endpoint(
            "{\"host\":\""@ + host + "\",\"port\":"@ + decimal(port as nat) + rest,
        ) == Some((host, port)),
{
    reveal_strlit("{\"host\":\"");
    reveal_strlit("\",\"port\":");
    reveal_strlit("host");
    reveal_strlit("port");
    let start = "{\"host\":\""@;
    let middle = "\",\"port\":"@;
    let number = decimal(port as nat);
    let json = start + host + middle + number + rest;
    let n = host.len() as int;
    let host_key = quoted("host"@);
    let port_key = quoted("port"@);
    assert(start.len() == 9 && middle.len() == 9 && host_key.len() == 6 && port_key.len() == 6);
    lemma_decimal(port as nat);
    law_decimal_reads_back(port as nat, 65535);
    assert forall|i: int| 0 <= i < 9 implies json[i] == start[i] by {}
    assert forall|i: int| 9 <= i < 9 + n implies json[i] == host[i - 9] by {}
    assert forall|i: int| 9 + n <= i < 18 + n implies json[i] == middle[i - 9 - n] by {}

    assert(json.subrange(1, 7) =~= host_key);
    assert(!stands_at(json, host_key, 0)) by {
        if stands_at(json, host_key, 0) {
            assert(json.subrange(0, 6)[0] == host_key[0]);
        }
    }
    lemma_first_at_is(json, host_key, 1);
    let after_host = json.skip(7);
    assert(after_host[0] == ':');
    assert(trimmed_start(after_host) == after_host);
    let host_value = after_host.skip(1);
    assert(host_value =~= json.skip(8));
    assert(host_value[0] == '"');
    assert(trimmed_start(host_value) == host_value);
    assert forall|i: int| 1 <= i < 1 + n implies host_value[i] != '"' by {
        assert(host_value[i] == host[i - 1]);
    }
    assert(host_value[1 + n] == '"');
    lemma_first_of_is(host_value, '"', 1, 1 + n);
    assert(host_value.subrange(1, 1 + n) =~= host);
    assert(string_field(json, "host"@) == Some(host));

    let at = 11 + n;
    assert(json.subrange(at, at + 6) =~= port_key);
    assert forall|i: int| 0 <= i < at implies !#[trigger] stands_at(json, port_key, i) by {
        if stands_at(json, port_key, i) {
            let part = json.subrange(i, i + 6);
            assert(part[0] == json[i] && part[1] == json[i + 1] && part[2] == json[i + 2]);
            assert(part[3] == json[i + 3] && part[4] == json[i + 4] && part[5] == json[i + 5]);
            assert(part[0] == '"' && part[1] == 'p' && part[2] == 'o' && part[3] == 'r');
            assert(part[4] == 't' && part[5] == '"');
            if i < 9 {
                assert(i == 8);
                if n == 4 {
                    assert(host =~= "port"@);
                } else if n < 4 {
                    assert(json[9 + n] == '"');
                } else {
                    assert(json[13] == host[4]);
                }
            } else if i < 9 + n {
                assert(json[i] == host[i - 9]);
            } else {
                assert(json[9 + n] == '"' && json[10 + n] == ',');
            }
        }
    }
    lemma_first_at_is(json, port_key, at);
    let after_port = json.skip(at + 6);
    assert(after_port[0] == ':');
    assert(trimmed_start(after_port) == after_port);
    let value = after_port.skip(1);
    assert(value =~= number + rest);
    assert(value[0] == number[0]);
    assert(is_digit(number[0]));
    assert(trimmed_start(value) == value);
    lemma_digits_end(number, rest, 0);
    assert(value.take(number.len() as int) =~= number);
}

/// The address that is written down is asked first, if it is on this machine, and then every
/// port that PrintFlow may listen on, from the lowest to the highest.
pub proof fn law_all_usual_ports_are_asked(written: Option<Seq<char>>, port: u16)
    requires
        47821 <= port <= 47840,
    ensures
        spec_candidates(None).len() == 20,
        spec_candidates(None)[port - 47821] == ("127.0.0.1"@, port),
        ({
            let asked = spec_candidates(written);
            let usual = spec_candidates(None);
            let known = match written {
                Some(json) => written_endpoint(json),
                None => None,
            };
            match known {
                Some((host, own)) => if host == "127.0.0.1"@ || host == "localhost"@ {
                    asked == seq![(host, own)] + usual
                } else {
                    asked == usual
                },
                None => asked == usual,
            }
        }),
{
}

/// A request starts with what is asked for, names the address and the length of its body, and
/// ends with an empty line; the kind of the body is told where there is one.
pub proof fn law_requests_tell_what_they_ask(
    method: Seq<char>,
    path: Seq<char>,
    host: Seq<char>,
    port: nat,
    length: nat,
)
    ensures
        ({
            let bare = spec_request_head(method, path, host, port, None);
            let full = spec_request_head(method, path, host, port, Some(length));
            let start = method + " "@ + path + " HTTP/1.1\r\nHost: "@ + host + ":"@ + decimal(port)
                + "\r\nConnection: close\r\n"@;
            &&& bare == start + "Content-Length: "@ + decimal(0) + "\r\n\r\n"@
            &&& full == start + "Content-Type: application/json\r\n"@ + "Content-Length: "@
                + decimal(length) + "\r\n\r\n"@
        }),
{
    reveal_strlit("");
    let start = method + " "@ + path + " HTTP/1.1\r\nHost: "@ + host + ":"@ + decimal(port)
        + "\r\nConnection: close\r\n"@;
    assert(start + ""@ =~= start);
}

/// The status and the body of a response are what PrintFlow answered.
pub proof fn law_responses_are_read(
    protocol: Seq<char>,
    status: nat,
    headers: Seq<char>,
    body: Seq<char>,
)
    requires
        is_word(protocol),
        status <= 65535,
        forall|i: int|
            0 <= i < headers.len() ==> !#[trigger] stands_at(
                headers + "\r\n\r\n"@,
                "\r\n\r\n"@,
                i,
            ),
    ensures
        ({
            let response = protocol + " "@ + decimal(status) + "\r\n"@ + headers + "\r\n\r\n"@
                + body;
            &&& response_status(response) == Some(status)
            &&& response_body(response) == body
        }),
{
    reveal_strlit(" ");
    reveal_strlit("\r\n");
    reveal_strlit("\r\n\r\n");
    let number = decimal(status);
    let line = protocol + " "@ + number;
    let feed = "\r\n"@;
    let gap = "\r\n\r\n"@;
    let after = headers + gap + body;
    let response = line + feed + headers + gap + body;
    assert(response =~= line + feed + after);
    lemma_decimal(status);
    law_decimal_reads_back(status, 65535);
    let n = line.len() as int;
    assert forall|i: int| 0 <= i < n implies response[i] != '\r' by {
        assert(response[i] == line[i]);
        if i < protocol.len() {
            assert(!is_white_space(protocol[i]));
        } else if i > protocol.len() {
            assert(line[i] == number[i - protocol.len() - 1]);
            assert(is_digit(number[i - protocol.len() - 1]));
        }
    }
    assert(response.subrange(n, n + 2) =~= feed);
    assert forall|i: int| 0 <= i < n implies !#[trigger] stands_at(response, feed, i) by {
        if stands_at(response, feed, i) {
            assert(response.subrange(i, i + 2)[0] == response[i]);
        }
    }
    lemma_first_at_is(response, feed, n);
    assert(response.take(n) =~= line);
    assert(response.skip(n + 2) =~= after);
    let empty = Seq::<char>::empty();
    assert forall|i: int| 0 <= i < number.len() implies !is_white_space(#[trigger] number[i]) by {
        assert(is_digit(number[i]));
    }
    law_words_stand_between_white_space(empty, protocol, " "@, number, empty);
    assert(empty + protocol + " "@ + number + empty =~= line);
    let m = headers.len() as int;
    assert(after.subrange(m, m + 4) =~= gap);
    assert forall|i: int| 0 <= i < m implies !#[trigger] stands_at(after, gap, i) by {
        if stands_at(after, gap, i) {
            let head = headers + gap;
            assert(head.subrange(i, i + 4) =~= after.subrange(i, i + 4));
            assert(stands_at(head, gap, i));
        }
    }
    lemma_first_at_is(after, gap, m);
    assert(after.skip(m + 4) =~= body);
}

/// Only whoever has to switch to PrintFlow is asked to do so.
pub proof fn law_a_window_behind_is_to_be_switched_to(focused: bool)
    ensures
        holds_part(focus_status(focused), "请手动切换到 PrintFlow。"@) <==> !focused,
{
    let behind = "已提交 PrintFlow，但未能自动切换窗口；请手动切换到 PrintFlow。"@;
    let front = "PrintFlow 窗口已置前。"@;
    let wanted = "请手动切换到 PrintFlow。"@;
    reveal_strlit("已提交 PrintFlow，但未能自动切换窗口；请手动切换到 PrintFlow。");
    reveal_strlit("PrintFlow 窗口已置前。");
    reveal_strlit("请手动切换到 PrintFlow。");
    let from = behind.len() - wanted.len();
    assert(behind.subrange(from, behind.len() as int) =~= wanted);
    assert(stands_at(behind, wanted, from));
    assert(front.len() < wanted.len());
}

} // verus!
