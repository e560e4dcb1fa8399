//! The text-generation side of the bot: turning attachments into message
//! parts, the web search and web scrape tools the model may call, and the
//! decision of what to do with the tool calls in a model reply.

use vstd::prelude::*;
use vstd::utf8::{decode_utf8, encode_utf8, valid_utf8};
use crate::json::{
    find_member, items_view, json_tree, lemma_items_view, lemma_members_lookup, lemma_view_of_tree,
    tree_view, Json, JsonTree, JsonView,
};
use crate::json_text::{parse_json, parsed_json};
use crate::text::{chars_of, push_decimal, decimal, string_of, trim, trim_chars};

verus! {

// ---------------------------------------------------------------- base64

/// The character of the standard base64 alphabet for a six-bit value.
pub open spec fn b64_digit(v: nat) -> char {
    if v < 26 {
        ('A' as nat + v) as char
    } else if v < 52 {
        ('a' as nat + (v - 26)) as char
    } else if v < 62 {
        ('0' as nat + (v - 52)) as char
    } else if v == 62 {
        '+'
    } else {
        '/'
    }
}

/// Standard base64 (RFC 4648, section 4) with `=` padding: every three
/// bytes become four characters.
pub open spec fn base64_standard(b: Seq<u8>) -> Seq<char>
    decreases b.len(),
{
    if b.len() == 0 {
        Seq::empty()
    } else if b.len() == 1 {
        seq![b64_digit(b[0] as nat / 4), b64_digit((b[0] as nat % 4) * 16), '=', '=']
    } else if b.len() == 2 {
        seq![
            b64_digit(b[0] as nat / 4),
            b64_digit((b[0] as nat % 4) * 16 + b[1] as nat / 16),
            b64_digit((b[1] as nat % 16) * 4),
            '=',
        ]
    } else {
        seq![
            b64_digit(b[0] as nat / 4),
            b64_digit((b[0] as nat % 4) * 16 + b[1] as nat / 16),
            b64_digit((b[1] as nat % 16) * 4 + b[2] as nat / 64),
            b64_digit(b[2] as nat % 64),
        ] + base64_standard(b.skip(3))
    }
}

/// The length of the base64 text of `n` bytes fits in `usize`.
pub open spec fn base64_len_fits(n: nat) -> bool {
    (n / 3) * 4 + (if n % 3 > 0 { 4nat } else { 0nat }) <= usize::MAX
}

/// `base64::engine::general_purpose::STANDARD.encode`.
///
/// Trusted: the crate encodes with the standard alphabet and `=` padding;
/// the contract states that encoding. The crate panics when the encoded
/// length overflows `usize`, which `requires` rules out.
#[verifier::external_body]
fn base64_encode(bytes: &[u8]) -> (r: String)
    requires
        base64_len_fits(bytes@.len()),
    ensures
        r@ == base64_standard(bytes@),
{
    base64::Engine::encode(&base64::engine::general_purpose::STANDARD, bytes)
}

// ---------------------------------------------------------------- percent-encoding

/// A byte that URL encoding leaves as it is: ASCII letters, digits and `-`,
/// `.`, `_`, `~`.
pub open spec fn url_safe_byte(b: u8) -> bool {
    (0x30 <= b <= 0x39) || (0x41 <= b <= 0x5a) || (0x61 <= b <= 0x7a) || b == 0x2d || b == 0x2e
        || b == 0x5f || b == 0x7e
}

/// An upper-case hexadecimal digit.
pub open spec fn hex_upper(d: nat) -> char {
    if d < 10 {
        ('0' as nat + d) as char
    } else {
        ('A' as nat + (d - 10)) as char
    }
}

/// Percent-encoding of bytes: safe bytes stay, every other byte becomes
/// `%` and two upper-case hexadecimal digits.
pub open spec fn percent_encode(b: Seq<u8>) -> Seq<char>
    decreases b.len(),
{
    if b.len() == 0 {
        Seq::empty()
    } else {
        let x = b.last();
        percent_encode(b.drop_last()) + if url_safe_byte(x) {
            seq![x as char]
        } else {
            seq!['%', hex_upper(x as nat / 16), hex_upper(x as nat % 16)]
        }
    }
}

/// `urlencoding::encode`.
///
/// Trusted: the crate percent-encodes the UTF-8 bytes of the text, keeping
/// alphanumerics and `-`, `_`, `.`, `~`, with upper-case hexadecimal digits;
/// the contract states that encoding.
#[verifier::external_body]
fn url_encode(s: &str) -> (r: String)
    ensures
        r@ == percent_encode(encode_utf8(s@)),
{
    urlencoding::encode(s).into_owned()
}

// ---------------------------------------------------------------- substrings

/// `needle` occurs in `s` (`str::contains`).
pub open spec fn contains_seq(s: Seq<char>, needle: Seq<char>) -> bool {
    exists|i: int| 0 <= i <= s.len() - needle.len() && #[trigger] s.subrange(i, i + needle.len()) == needle
}

/// Whether `needle` occurs in `s`.
pub fn contains_chars(s: &Vec<char>, needle: &Vec<char>) -> (r: bool)
    ensures
        r == contains_seq(s@, needle@),
{
    if needle.len() > s.len() {
        return false;
    }
    let mut i: usize = 0;
    while i <= s.len() - needle.len()
        invariant
            needle.len() <= s.len(),
            forall|k: int| 0 <= k < i ==> #[trigger] s@.subrange(k, k + needle@.len()) != needle@,
        decreases s.len() - needle.len() + 1 - i,
    {
        let mut j: usize = 0;
        while j < needle.len() && s[i + j] == needle[j]
            invariant
                i <= s.len() - needle.len(),
                j <= needle.len(),
                forall|q: int| 0 <= q < j ==> s@[i + q] == needle@[q],
            decreases needle.len() - j,
        {
            j = j + 1;
        }
        if j == needle.len() {
            assert(s@.subrange(i as int, i + needle@.len()) =~= needle@);
            return true;
        }
        assert(s@.subrange(i as int, i + needle@.len())[j as int] != needle@[j as int]);
        i = i + 1;
    }
    false
}

// ---------------------------------------------------------------- attachments

/// How an attachment is passed to the model.
#[derive(Debug, PartialEq, Eq, Structural)]
pub enum AttachmentKind {
    /// An image, sent inline as a data URL.
    Image,
    /// A text file, sent as text.
    Text,
    /// Anything else, left out.
    Other,
}

/// The kind of an attachment from its content type: "image" anywhere in it
/// makes an image, else "text" makes a text file.
pub open spec fn attachment_kind_of(content_type: Seq<char>) -> AttachmentKind {
    if contains_seq(content_type, "image"@) {
        AttachmentKind::Image
    } else if contains_seq(content_type, "text"@) {
        AttachmentKind::Text
    } else {
        AttachmentKind::Other
    }
}

/// Classifies an attachment by its content type.
pub fn attachment_kind(content_type: &str) -> (r: AttachmentKind)
    ensures
        r == attachment_kind_of(content_type@),
{
    let ct = chars_of(content_type);
    if contains_chars(&ct, &chars_of("image")) {
        AttachmentKind::Image
    } else if contains_chars(&ct, &chars_of("text")) {
        AttachmentKind::Text
    } else {
        AttachmentKind::Other
    }
}

/// The data URL of an image: `data:<content type>;base64,<bytes in base64>`.
pub open spec fn image_data_url(content_type: Seq<char>, bytes: Seq<u8>) -> Seq<char> {
    "data:"@ + content_type + ";base64,"@ + base64_standard(bytes)
}

/// Builds the data URL that carries an image to the model.
pub fn image_part(content_type: &str, bytes: &[u8]) -> (r: String)
    requires
        base64_len_fits(bytes@.len()),
    ensures
        r@ == image_data_url(content_type@, bytes@),
{
    let encoded = base64_encode(bytes);
    let mut s = String::from_str("data:");
    s.append(content_type);
    s.append(";base64,");
    s.append(encoded.as_str());
    s
}

/// `String::from_utf8`, with its error dropped.
///
/// Trusted: std returns the decoded text exactly when the bytes are valid
/// UTF-8; the contract says so over vstd's UTF-8 definitions.
#[verifier::external_body]
fn utf8_string(bytes: Vec<u8>) -> (r: Option<String>)
    ensures
        r is Some <==> valid_utf8(bytes@),
        r matches Some(s) ==> s@ == decode_utf8(bytes@),
{
    String::from_utf8(bytes).ok()
}

/// An attachment that could not be passed to the model.
#[derive(Debug, PartialEq, Eq, Structural)]
pub enum AttachmentError {
    /// A text file whose bytes are not UTF-8.
    NotUtf8,
}

/// The message part that carries a text file: its name, a blank line, then
/// its text.
pub open spec fn text_file_message(filename: Seq<char>, text: Seq<char>) -> Seq<char> {
    "File "@ + filename + ":\n\n"@ + text
}

/// Builds the message part for a text file, refusing bytes that are not
/// UTF-8.
pub fn text_file_part(filename: &str, bytes: Vec<u8>) -> (r: Result<String, AttachmentError>)
    ensures
        valid_utf8(bytes@) ==> (r matches Ok(s) && s@ == text_file_message(filename@, decode_utf8(bytes@))),
        !valid_utf8(bytes@) ==> r == Err::<String, AttachmentError>(AttachmentError::NotUtf8),
{
    match utf8_string(bytes) {
        Some(text) => {
            let mut s = String::from_str("File ");
            s.append(filename);
            s.append(":\n\n");
            s.append(text.as_str());
            Ok(s)
        },
        None => Err(AttachmentError::NotUtf8),
    }
}


// ---------------------------------------------------------------- tools

/// `value[key].as_str()` on a JSON value: the text of member `key` of an
/// object, when that member is a string.
pub open spec fn str_member(j: JsonView, key: Seq<char>) -> Option<Seq<char>> {
    match j {
        JsonView::Object(m) => if m.dom().contains(key) {
            match m[key] {
                JsonView::Str(s) => Some(s),
                _ => None,
            }
        } else {
            None
        },
        _ => None,
    }
}

/// The text of member `key` of `j`, when `j` is an object whose member
/// `key` is a string.
pub fn member_str(j: &Json, key: &str) -> (r: Option<String>)
    ensures
        match r {
            Some(s) => str_member(j@, key@) == Some(s@),
            None => str_member(j@, key@) is None,
        },
{
    match j {
        Json::Object(members) => {
            let k = String::from_str(key);
            proof {
                lemma_members_lookup(members@, k@);
            }
            match find_member(members, &k) {
                Some(p) => match &members[p].1 {
                    Json::Str(s) => Some(s.clone()),
                    _ => None,
                },
                None => None,
            }
        },
        _ => None,
    }
}

/// The search engine request for a query.
pub open spec fn searx_url_for(query: Seq<char>) -> Seq<char> {
    "https://searx.clowdertech.com/search?q="@ + percent_encode(encode_utf8(query)) + "&format=json"@
}

/// The request URL of the web search tool for its arguments, whose
/// `query` member must be a string.
pub fn searx_url(args: &Json) -> (r: String)
    requires
        str_member(args@, "query"@) is Some,
    ensures
        r@ == searx_url_for(str_member(args@, "query"@)->0),
{
    let query = match member_str(args, "query") {
        Some(q) => q,
        None => {
            assert(false);
            String::new()
        },
    };
    let encoded = url_encode(query.as_str());
    let mut s = String::from_str("https://searx.clowdertech.com/search?q=");
    s.append(encoded.as_str());
    s.append("&format=json");
    s
}

/// A search result the tool can report: an object whose `url`, `title` and
/// `content` members are strings.
pub open spec fn is_search_result(r: JsonView) -> bool {
    &&& str_member(r, "url"@) is Some
    &&& str_member(r, "title"@) is Some
    &&& str_member(r, "content"@) is Some
}

/// The line reporting result number `n`: `n. url - title - content`.
pub open spec fn result_line(n: nat, r: JsonView) -> Seq<char> {
    decimal(n) + ". "@ + str_member(r, "url"@)->0 + " - "@ + str_member(r, "title"@)->0 + " - "@
        + str_member(r, "content"@)->0 + "\n"@
}

/// The lines reporting the results, numbered from one.
pub open spec fn result_lines(rs: Seq<JsonView>) -> Seq<char>
    decreases rs.len(),
{
    if rs.len() == 0 {
        Seq::empty()
    } else {
        result_lines(rs.drop_last()) + result_line(rs.len(), rs.last())
    }
}

/// The results array of a search response, when the response is an object
/// with an array member `results`.
pub open spec fn response_results(response: JsonView) -> Option<Seq<JsonView>> {
    match response {
        JsonView::Object(m) => if m.dom().contains("results"@) {
            match m["results"@] {
                JsonView::Array(rs) => Some(rs),
                _ => None,
            }
        } else {
            None
        },
        _ => None,
    }
}

/// A search response the tool can report: its results form an array of at
/// most 255 reportable results (they are numbered with a `u8`).
pub open spec fn is_reportable_response(response: JsonView) -> bool {
    &&& response_results(response) is Some
    &&& response_results(response)->0.len() <= 255
    &&& forall|i: int| 0 <= i < response_results(response)->0.len() ==> is_search_result(
        #[trigger] response_results(response)->0[i],
    )
}

/// The text the web search tool returns for a response: one numbered line
/// per result, trimmed.
pub fn format_search_results(response: &Json) -> (r: String)
    requires
        is_reportable_response(response@),
    ensures
        r@ == trim(result_lines(response_results(response@)->0)),
{
    let results: &Vec<Json> = match response {
        Json::Object(members) => {
            let k = String::from_str("results");
            proof {
                lemma_members_lookup(members@, k@);
            }
            match find_member(members, &k) {
                Some(p) => match &members[p].1 {
                    Json::Array(items) => items,
                    _ => {
                        assert(false);
                        return String::new();
                    },
                },
                None => {
                    assert(false);
                    return String::new();
                },
            }
        },
        _ => {
            assert(false);
            return String::new();
        },
    };
    let ghost rs = response_results(response@)->0;
    proof {
        lemma_items_view(results@);
    }
    assert(rs =~= items_view(results@));
    let mut out = String::new();
    let mut i: usize = 0;
    while i < results.len()
        invariant
            i <= results.len(),
            results.len() <= 255,
            rs.len() == results.len(),
            forall|q: int| 0 <= q < rs.len() ==> #[trigger] rs[q] == results@[q]@,
            forall|q: int| 0 <= q < rs.len() ==> is_search_result(#[trigger] rs[q]),
            out@ == result_lines(rs.take(i as int)),
        decreases results.len() - i,
    {
        let r = &results[i];
        assert(is_search_result(rs[i as int]));
        let url = match member_str(r, "url") {
            Some(u) => u,
            None => {
                assert(false);
                String::new()
            },
        };
        let title = match member_str(r, "title") {
            Some(t) => t,
            None => {
                assert(false);
                String::new()
            },
        };
        let content = match member_str(r, "content") {
            Some(c) => c,
            None => {
                assert(false);
                String::new()
            },
        };
        let ghost before = out@;
        push_decimal(&mut out, (i + 1) as u64);
        out.append(". ");
        out.append(url.as_str());
        out.append(" - ");
        out.append(title.as_str());
        out.append(" - ");
        out.append(content.as_str());
        out.append("\n");
        assert(rs.take(i + 1).drop_last() =~= rs.take(i as int));
        assert(rs.take(i + 1).last() == rs[i as int]);
        assert(out@ =~= before + result_line((i + 1) as nat, rs[i as int]));
        i = i + 1;
    }
    assert(rs.take(results.len() as int) =~= rs);
    let cs = chars_of(out.as_str());
    let t = trim_chars(&cs);
    string_of(&t)
}

/// The page URL the web scrape tool fetches, from its arguments, whose
/// `url` member must be a string.
pub fn scrape_url(args: &Json) -> (r: String)
    requires
        str_member(args@, "url"@) is Some,
    ensures
        r@ == str_member(args@, "url"@)->0,
{
    match member_str(args, "url") {
        Some(u) => u,
        None => {
            assert(false);
            String::new()
        },
    }
}

/// What `html_to_markdown_rs::convert` makes of an HTML page with the
/// default options: `None` when it fails, else the converted content, which
/// may be absent.
pub uninterp spec fn markdown_of_html(html: Seq<char>) -> Option<Option<Seq<char>>>;

/// `html_to_markdown_rs::convert(html, None)`.
///
/// Trusted: the result is named `markdown_of_html` of the page; nothing is
/// claimed about the conversion itself.
#[verifier::external_body]
fn convert_html(html: &str) -> (r: Option<Option<String>>)
    ensures
        match r {
            Some(Some(c)) => markdown_of_html(html@) == Some(Some(c@)),
            Some(None) => markdown_of_html(html@) == Some(None::<Seq<char>>),
            None => markdown_of_html(html@) is None,
        },
{
    match html_to_markdown_rs::convert(html, None::<html_to_markdown_rs::ConversionOptions>) {
        Ok(result) => Some(result.content),
        Err(_) => None,
    }
}

/// A tool that could not produce its text.
#[derive(Debug, PartialEq, Eq, Structural)]
pub enum ToolError {
    /// The page could not be converted to Markdown.
    Conversion,
}

/// The text the web scrape tool makes of a conversion result: the Markdown,
/// trimmed (empty when the conversion has no content), or the conversion
/// error.
pub open spec fn scraped_from(converted: Option<Option<Seq<char>>>) -> Result<Seq<char>, ToolError> {
    match converted {
        Some(Some(c)) => Ok(trim(c)),
        Some(None) => Ok(Seq::empty()),
        None => Err(ToolError::Conversion),
    }
}

/// The text the web scrape tool returns for a page.
pub open spec fn scraped_text(html: Seq<char>) -> Result<Seq<char>, ToolError> {
    scraped_from(markdown_of_html(html))
}

/// The view of a conversion result.
pub open spec fn converted_view(c: Option<Option<String>>) -> Option<Option<Seq<char>>> {
    match c {
        Some(Some(s)) => Some(Some(s@)),
        Some(None) => Some(None),
        None => None,
    }
}

/// Turns the result of converting a page to Markdown (`None` when the
/// conversion failed, else its content, which may be absent) into the text
/// the web scrape tool returns.
pub fn scraped_from_conversion(converted: Option<Option<String>>) -> (r: Result<String, ToolError>)
    ensures
        match scraped_from(converted_view(converted)) {
            Ok(t) => r matches Ok(s) && s@ == t,
            Err(e) => r == Err::<String, ToolError>(e),
        },
{
    match converted {
        Some(Some(content)) => {
            let cs = chars_of(content.as_str());
            let t = trim_chars(&cs);
            Ok(string_of(&t))
        },
        Some(None) => {
            assert(trim(Seq::<char>::empty()) =~= Seq::<char>::empty());
            Ok(String::new())
        },
        None => Err(ToolError::Conversion),
    }
}

/// Converts a fetched page to the text the web scrape tool returns.
pub fn scraped_markdown(html: &str) -> (r: Result<String, ToolError>)
    ensures
        match scraped_text(html@) {
            Ok(t) => r matches Ok(s) && s@ == t,
            Err(e) => r == Err::<String, ToolError>(e),
        },
{
    let converted = convert_html(html);
    assert(converted_view(converted) == markdown_of_html(html@));
    scraped_from_conversion(converted)
}

/// A function call the model asked for.
pub struct ToolCall {
    pub id: String,
    pub name: String,
}

/// What to do with one function call of the model.
pub enum ToolDispatch {
    /// Run the registered handler `name`, answering call `id`.
    Run { id: String, name: String },
    /// No handler has that name: answer call `id` with `reply`.
    Unknown { id: String, reply: String },
}

/// The reply to a call of a function that has no handler.
pub open spec fn no_handler_reply(name: Seq<char>) -> Seq<char> {
    "No handler registered for function: "@ + name
}

/// `d` is the right answer to `call` given the registered handler names.
pub open spec fn dispatches(call: ToolCall, registered: Seq<Seq<char>>, d: ToolDispatch) -> bool {
    if registered.contains(call.name@) {
        d matches ToolDispatch::Run { id, name } && id@ == call.id@ && name@ == call.name@
    } else {
        d matches ToolDispatch::Unknown { id, reply } && id@ == call.id@ && reply@ == no_handler_reply(
            call.name@,
        )
    }
}

/// Decides, call by call, whether a registered handler runs or the model is
/// told that no handler has that name.
pub fn dispatch_tool_calls(calls: &Vec<ToolCall>, registered: &Vec<String>) -> (r: Vec<ToolDispatch>)
    ensures
        r@.len() == calls@.len(),
        forall|i: int| 0 <= i < calls@.len() ==> dispatches(
            calls@[i],
            registered@.map_values(|s: String| s@),
            #[trigger] r@[i],
        ),
{
    let ghost names = registered@.map_values(|s: String| s@);
    let mut out: Vec<ToolDispatch> = Vec::new();
    let mut i: usize = 0;
    while i < calls.len()
        invariant
            i <= calls.len(),
            out@.len() == i,
            names == registered@.map_values(|s: String| s@),
            forall|q: int| 0 <= q < i ==> dispatches(calls@[q], names, #[trigger] out@[q]),
        decreases calls.len() - i,
    {
        let call = &calls[i];
        let mut found = false;
        let mut j: usize = 0;
        while j < registered.len()
            invariant
                j <= registered.len(),
                names == registered@.map_values(|s: String| s@),
                found <==> exists|q: int| 0 <= q < j && #[trigger] names[q] == call.name@,
            decreases registered.len() - j,
        {
            if registered[j] == call.name {
                found = true;
            }
            assert(names[j as int] == registered@[j as int]@);
            j = j + 1;
        }
        proof {
            if found {
                let q = choose|q: int| 0 <= q < registered.len() && #[trigger] names[q] == call.name@;
                assert(names.contains(call.name@));
            } else {
                assert(!names.contains(call.name@));
            }
        }
        let d = if found {
            ToolDispatch::Run { id: call.id.clone(), name: call.name.clone() }
        } else {
            let mut reply = String::from_str("No handler registered for function: ");
            reply.append(call.name.as_str());
            ToolDispatch::Unknown { id: call.id.clone(), reply }
        };
        out.push(d);
        i = i + 1;
    }
    out
}


/// What the chat loop does after a reply of the model.
pub enum ChatAction {
    /// The reply asks for no function call: the conversation ends with it.
    Finish,
    /// Answer these calls, in the order the model made them, each with one
    /// tool message, then ask the model again.
    Answer(Vec<ToolDispatch>),
}

/// One step of the chat loop: the model's reply (`reply`, with the function
/// calls `calls` it makes) joins the history; the loop ends when it makes no
/// call, and otherwise every call is dispatched against the handler names
/// `registered`.
pub fn chat_step<M>(history: &mut Vec<M>, reply: M, calls: &Vec<ToolCall>, registered: &Vec<String>) -> (r: ChatAction)
    ensures
        final(history)@ == old(history)@.push(reply),
        calls@.len() == 0 <==> r is Finish,
        r matches ChatAction::Answer(ds) ==> ds@.len() == calls@.len() && forall|i: int|
            0 <= i < calls@.len() ==> dispatches(
                calls@[i],
                registered@.map_values(|s: String| s@),
                #[trigger] ds@[i],
            ),
{
    history.push(reply);
    if calls.len() == 0 {
        ChatAction::Finish
    } else {
        ChatAction::Answer(dispatch_tool_calls(calls, registered))
    }
}

/// The tool message that answers one function call.
pub struct ToolAnswer {
    pub tool_call_id: String,
    pub content: String,
}

/// The answer to a dispatched call: the handler's output for a call that
/// ran (`output`), the no-handler reply for an unknown function.
pub fn tool_answer(d: ToolDispatch, output: Option<String>) -> (r: ToolAnswer)
    requires
        d is Run ==> output is Some,
    ensures
        match d {
            ToolDispatch::Run { id, name } => r.tool_call_id@ == id@ && r.content@ == output->0@,
            ToolDispatch::Unknown { id, reply } => r.tool_call_id@ == id@ && r.content@ == reply@,
        },
{
    match d {
        ToolDispatch::Run { id, .. } => match output {
            Some(content) => ToolAnswer { tool_call_id: id, content },
            None => {
                assert(false);
                ToolAnswer { tool_call_id: id, content: String::new() }
            },
        },
        ToolDispatch::Unknown { id, reply } => ToolAnswer { tool_call_id: id, content: reply },
    }
}

/// The arguments a tool handler is given: the call's argument text read as
/// JSON, or `null` when it is not JSON.
pub fn tool_arguments(text: &str) -> (r: Json)
    ensures
        json_tree(r) == match parsed_json(text@) {
            Some(t) => t,
            None => JsonTree::Null,
        },
        r@ == tree_view(json_tree(r)),
{
    match parse_json(text) {
        Some(j) => {
            proof {
                lemma_view_of_tree(j);
            }
            j
        },
        None => Json::Null,
    }
}

} // verus!
