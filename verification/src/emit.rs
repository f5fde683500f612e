//! What a command prints: documents, and errors in words or as documents.

use vstd::prelude::*;
use crate::error::ChefError;
use crate::json::{
    compact, compact_text, held, held_fields, lemma_shows, object, pretty, pretty_text, put,
    record, shows, string, strings, text_list, Json,
};
use crate::state::opt;
use crate::text::{cat, texts};

verus! {

/// Output that is kept instead of printed.
#[derive(Debug)]
pub struct JsonOutput {
    /// Documents.
    pub out: Vec<String>,
    /// Documents about errors.
    pub err: Vec<String>,
}

impl Default for JsonOutput {
    fn default() -> (o: JsonOutput)
        ensures
            o.out@.len() == 0 && o.err@.len() == 0,
    {
        JsonOutput { out: Vec::new(), err: Vec::new() }
    }
}

/// From now on documents are kept.
pub fn set_capture(capture: &mut Option<JsonOutput>, c: JsonOutput)
    ensures
        *final(capture) == Some(c),
{
    *capture = Some(c);
}

/// What was kept; from now on documents are printed.
pub fn take_capture(capture: &mut Option<JsonOutput>) -> (r: Option<JsonOutput>)
    ensures
        r == *old(capture),
        *final(capture) is None,
{
    capture.take()
}

/// The documents that were kept.
pub open spec fn kept_out(c: Option<JsonOutput>) -> Seq<Seq<char>> {
    match c {
        Some(o) => texts(o.out@),
        None => Seq::empty(),
    }
}

/// The documents about errors that were kept.
pub open spec fn kept_err(c: Option<JsonOutput>) -> Seq<Seq<char>> {
    match c {
        Some(o) => texts(o.err@),
        None => Seq::empty(),
    }
}

/// The result of a command as a document: it is kept, or the text to print is
/// returned.
pub fn emit_json(v: &serde_json::Value, capture: &mut Option<JsonOutput>) -> (r: Option<String>)
    ensures
        *old(capture) is None ==> *final(capture) is None && opt(r) == Some(
            pretty_text(held(*v)),
        ),
        *old(capture) is Some ==> *final(capture) is Some && r is None && kept_out(*final(capture))
            == kept_out(*old(capture)).push(pretty_text(held(*v))) && kept_err(*final(capture))
            == kept_err(*old(capture)),
{
    let s = pretty(v);
    match capture.take() {
        Some(c) => {
            let mut c = c;
            let ghost before = c.out@;
            let ghost sv = s@;
            c.out.push(s);
            proof {
                assert(texts(c.out@) =~= texts(before).push(sv));
            }
            *capture = Some(c);
            None
        },
        None => Some(s),
    }
}

/// One error as a document: it is kept, or the text to print is returned.
pub fn emit_json_error(v: &serde_json::Value, capture: &mut Option<JsonOutput>) -> (r: Option<
    String,
>)
    ensures
        *old(capture) is None ==> *final(capture) is None && opt(r) == Some(
            compact_text(held(*v)),
        ),
        *old(capture) is Some ==> *final(capture) is Some && r is None && kept_err(*final(capture))
            == kept_err(*old(capture)).push(compact_text(held(*v))) && kept_out(*final(capture))
            == kept_out(*old(capture)),
{
    let s = compact(v);
    match capture.take() {
        Some(c) => {
            let mut c = c;
            let ghost before = c.err@;
            let ghost sv = s@;
            c.err.push(s);
            proof {
                assert(texts(c.err@) =~= texts(before).push(sv));
            }
            *capture = Some(c);
            None
        },
        None => Some(s),
    }
}

/// The document about an error: the message without what lies behind it, and the
/// candidates for an ambiguous name. None where everything was reported already.
pub open spec fn error_document(e: ChefError) -> Option<Json> {
    match e {
        ChefError::Ambiguous(c) => Some(
            record(
                seq![
                    ("error"@, Json::Text("ambiguous package name - did you mean:"@)),
                    ("candidates"@, text_list(texts(c@))),
                ],
            ),
        ),
        ChefError::Other(f) => Some(
            record(seq![("error"@, Json::Text(f.message@))]),
        ),
        ChefError::Reported(_) => None,
    }
}

/// The document that holds one message.
pub fn message_value(message: &str) -> (v: serde_json::Value)
    ensures
        held(v) == record(seq![("error"@, Json::Text(message@))]),
{
    let mut fields: Vec<(String, serde_json::Value)> = Vec::new();
    put(&mut fields, "error", string(message));
    proof {
        assert(held_fields(fields@) =~= seq![("error"@, Json::Text(message@))]);
    }
    object(fields)
}

fn error_value(e: &ChefError) -> (r: Option<serde_json::Value>)
    ensures
        match r {
            Some(v) => error_document(*e) == Some(held(v)),
            None => error_document(*e) is None,
        },
{
    match e {
        ChefError::Ambiguous(c) => {
            let mut fields: Vec<(String, serde_json::Value)> = Vec::new();
            put(&mut fields, "error", string("ambiguous package name - did you mean:"));
            put(&mut fields, "candidates", strings(c));
            proof {
                assert(held_fields(fields@) =~= seq![
                    ("error"@, Json::Text("ambiguous package name - did you mean:"@)),
                    ("candidates"@, text_list(texts(c@))),
                ]);
            }
            Some(object(fields))
        },
        ChefError::Other(f) => Some(message_value(f.message.as_str())),
        ChefError::Reported(_) => None,
    }
}

/// The text of the document about an error; empty where everything was reported
/// already.
pub fn json_error(e: &ChefError) -> (out: String)
    ensures
        out@ == match error_document(*e) {
            Some(j) => compact_text(j),
            None => Seq::empty(),
        },
{
    match error_value(e) {
        Some(v) => compact(&v),
        None => String::new(),
    }
}

/// How an error is told.
#[derive(Debug)]
pub struct ErrorReport {
    /// What goes to the log.
    pub log: Option<String>,
    /// The document to print.
    pub print: Option<String>,
    /// The exit code of the process.
    pub code: i32,
}

/// Tells an error: in words in the log, with a document where documents are
/// asked for. What was reported already is not told again.
pub fn write_error(e: &ChefError, json: bool, capture: &mut Option<JsonOutput>) -> (r: ErrorReport)
    ensures
        r.code == if *e is Ambiguous {
            2int
        } else {
            1
        },
        *e is Reported ==> r.log is None && r.print is None && *final(capture) == *old(capture),
        !(*e is Reported) && !json ==> r.print is None && *final(capture) == *old(capture)
            && opt(r.log) == Some("error: "@ + e.says()),
        !(*e is Reported) && json ==> opt(r.log) == Some(e.says()),
        !(*e is Reported) && json && *old(capture) is None ==> *final(capture) is None
            && opt(r.print) == Some(compact_text(error_document(*e)->0)),
        !(*e is Reported) && json && *old(capture) is Some ==> {
            &&& r.print is None
            &&& *final(capture) is Some
            &&& kept_err(*final(capture)) == kept_err(*old(capture)).push(
                compact_text(error_document(*e)->0),
            )
            &&& kept_out(*final(capture)) == kept_out(*old(capture))
        },
{
    let code: i32 = e.exit_code();
    match error_value(e) {
        None => ErrorReport { log: None, print: None, code },
        Some(v) => {
            let text = e.message();
            if json {
                let print = emit_json_error(&v, capture);
                ErrorReport { log: Some(text), print, code }
            } else {
                ErrorReport { log: Some(cat("error: ", text.as_str())), print: None, code }
            }
        },
    }
}

/// The document about an error holds its message, without what lies behind it, and
/// for an ambiguous name the candidates; of what was reported there is none.
pub proof fn law_errors_are_told_as_documents(e: ChefError)
    ensures
        e is Reported <==> error_document(e) is None,
        e matches ChefError::Other(f) ==> shows(
            error_document(e)->0,
            "error"@,
            Json::Text(f.message@),
        ),
        e matches ChefError::Ambiguous(c) ==> shows(
            error_document(e)->0,
            "candidates"@,
            text_list(texts(c@)),
        ),
{
    match e {
        ChefError::Other(f) => {
            lemma_shows(seq![("error"@, Json::Text(f.message@))], 0);
        },
        ChefError::Ambiguous(c) => {
            lemma_shows(
                seq![
                    ("error"@, Json::Text("ambiguous package name - did you mean:"@)),
                    ("candidates"@, text_list(texts(c@))),
                ],
                1,
            );
        },
        ChefError::Reported(_) => {},
    }
}

} // verus!
