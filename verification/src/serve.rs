//! Archive request handling: resolving a request path to an entry name,
//! looking the entry up in the archive bytes, and mapping the outcome to an
//! HTTP status, a body, and a log line.

use vstd::prelude::*;

verus! {

/// A failure of one archive lookup, recovered per request into an HTTP
/// reply and never propagated further.
pub enum HandleError {
    IOFailure(String),
    InvalidArchive(String),
    EntryNotFound,
}

/// The bytes stored under exact name `name` in the archive `archive`, or
/// `None` when the lookup fails; a pure function of the two arguments.
pub uninterp spec fn zip_entry(archive: Seq<u8>, name: Seq<char>) -> Option<Seq<u8>>;

/// Whether a failed lookup of `name` in `archive` failed because no entry
/// of that exact name exists, rather than because the archive is unreadable.
pub uninterp spec fn zip_entry_missing(archive: Seq<u8>, name: Seq<char>) -> bool;

/// Relies on zip::ZipArchive::{new, by_name} over an in-memory reader and
/// std::io::Read::read_to_end: which bytes an exact-name lookup returns —
/// and whether a failure is a missing entry (FileNotFound) rather than an
/// unreadable archive — is a function of the archive bytes and the name
/// alone.
#[verifier::external_body]
fn zip_read_entry(archive: &Vec<u8>, name: &str) -> (r: Result<Vec<u8>, HandleError>)
    ensures
        r matches Ok(b) ==> zip_entry(archive@, name@) == Some(b@),
        r is Err ==> zip_entry(archive@, name@) is None,
        r matches Err(e) ==> ((e is EntryNotFound) <==> zip_entry_missing(archive@, name@)),
{
    let res = zip::ZipArchive::new(std::io::Cursor::new(archive.as_slice())).and_then(|mut z| {
        let mut f = z.by_name(name)?;
        let mut buf = Vec::new();
        std::io::Read::read_to_end(&mut f, &mut buf)?;
        Ok(buf)
    });
    res.map_err(|e| match e {
        zip::result::ZipError::FileNotFound => HandleError::EntryNotFound,
        zip::result::ZipError::Io(err) => HandleError::IOFailure(err.to_string()),
        zip::result::ZipError::InvalidArchive(m) => HandleError::InvalidArchive(m.into_owned()),
        zip::result::ZipError::UnsupportedArchive(m) => HandleError::InvalidArchive(m.to_owned()),
        other => HandleError::InvalidArchive(other.to_string()),
    })
}

/// The archive entry name a request path resolves to: a path ending in the
/// separator gets `index.html` appended, then exactly one leading separator
/// is stripped (entry names are stored without one).
pub open spec fn resolved_entry_name(path: Seq<char>) -> Seq<char> {
    let full = if path.len() > 0 && path.last() == '/' {
        path + "index.html"@
    } else {
        path
    };
    if full.len() > 0 && full.first() == '/' {
        full.drop_first()
    } else {
        full
    }
}

/// Resolves a request path to the archive entry name to look up.
pub fn resolve_entry_name(path: &str) -> (r: String)
    ensures
        r@ == resolved_entry_name(path@),
{
    let n = path.unicode_len();
    let mut full = path.to_owned();
    if n > 0 && path.get_char(n - 1) == '/' {
        full.append("index.html");
    }
    let fl = full.as_str().unicode_len();
    if fl > 0 && full.as_str().get_char(0) == '/' {
        let stripped = full.as_str().substring_char(1, fl).to_owned();
        proof {
            assert(stripped@ =~= full@.drop_first());
        }
        stripped
    } else {
        full
    }
}

/// The body of an HTTP reply: raw entry bytes, or a plain-text diagnostic.
pub enum ReplyBody {
    Bytes(Vec<u8>),
    Text(String),
}

/// One HTTP reply: a status code and a body.
pub struct HttpReply {
    pub status: u16,
    pub body: ReplyBody,
}

/// The outcome of serving one request: the reply to send, and, for a
/// failure, the line to log (the reply itself stays generic).
pub struct ServeOutcome {
    pub reply: HttpReply,
    pub log: Option<String>,
}

/// Maps one lookup outcome to a reply: 200 with the bytes on success, 404
/// with a plain `NOT FOUND` body for a missing entry, 500 with a generic
/// body for an unreadable archive; every failure yields a log line naming
/// the offending path and the cause.
pub fn reply_for(path: &str, res: Result<Vec<u8>, HandleError>) -> (r: ServeOutcome)
    ensures
        res matches Ok(b) ==> r.reply.status == 200 && (r.reply.body matches ReplyBody::Bytes(bb)
            && bb@ == b@) && r.log is None,
        res is Err ==> r.log is Some,
        res matches Err(e) && e is EntryNotFound ==> r.reply.status == 404 && (
        r.reply.body matches ReplyBody::Text(t) && t@ == "NOT FOUND"@) && (r.log matches Some(l)
            && l@ == "not found: "@ + path@),
        res matches Err(e) && !(e is EntryNotFound) ==> r.reply.status == 500 && (
        r.reply.body matches ReplyBody::Text(t) && t@ == "internal server error"@),
        res matches Err(HandleError::IOFailure(m)) ==> (r.log matches Some(l) && l@
            == "io error serving "@ + path@ + ": "@ + m@),
        res matches Err(HandleError::InvalidArchive(m)) ==> (r.log matches Some(l) && l@
            == "invalid archive serving "@ + path@ + ": "@ + m@),
{
    match res {
        Ok(bytes) => ServeOutcome {
            reply: HttpReply { status: 200, body: ReplyBody::Bytes(bytes) },
            log: None,
        },
        Err(HandleError::EntryNotFound) => {
            let mut l = String::from_str("not found: ");
            l.append(path);
            ServeOutcome {
                reply: HttpReply {
                    status: 404,
                    body: ReplyBody::Text(String::from_str("NOT FOUND")),
                },
                log: Some(l),
            }
        },
        Err(HandleError::IOFailure(m)) => {
            let mut l = String::from_str("io error serving ");
            l.append(path);
            l.append(": ");
            l.append(m.as_str());
            ServeOutcome {
                reply: HttpReply {
                    status: 500,
                    body: ReplyBody::Text(String::from_str("internal server error")),
                },
                log: Some(l),
            }
        },
        Err(HandleError::InvalidArchive(m)) => {
            let mut l = String::from_str("invalid archive serving ");
            l.append(path);
            l.append(": ");
            l.append(m.as_str());
            ServeOutcome {
                reply: HttpReply {
                    status: 500,
                    body: ReplyBody::Text(String::from_str("internal server error")),
                },
                log: Some(l),
            }
        },
    }
}

/// Serves one request from the archive bytes: resolves the path to an entry
/// name, looks the entry up fresh, and maps the outcome to the reply. The
/// reply carries exactly the stored bytes on success, 404 exactly when the
/// entry is missing, and 500 when the archive cannot be read.
pub fn handle_request(archive: &Vec<u8>, path: &str) -> (r: ServeOutcome)
    ensures
        ({
            let name = resolved_entry_name(path@);
            &&& (zip_entry(archive@, name) matches Some(b) ==> r.reply.status == 200 && (
            r.reply.body matches ReplyBody::Bytes(bb) && bb@ == b) && r.log is None)
            &&& (zip_entry(archive@, name) is None ==> {
                &&& r.log is Some
                &&& (r.reply.status == 404 <==> zip_entry_missing(archive@, name))
                &&& (zip_entry_missing(archive@, name) ==> (
                r.reply.body matches ReplyBody::Text(t) && t@ == "NOT FOUND"@) && (
                r.log matches Some(l) && l@ == "not found: "@ + path@))
                &&& (!zip_entry_missing(archive@, name) ==> r.reply.status == 500 && (
                r.reply.body matches ReplyBody::Text(t) && t@ == "internal server error"@))
            })
        }),
{
    let name = resolve_entry_name(path);
    let res = zip_read_entry(archive, name.as_str());
    reply_for(path, res)
}

} // verus!
