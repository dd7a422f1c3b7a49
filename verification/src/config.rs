//! Configuration document parsing and job validation.
//!
//! A configuration document is a sequence of job entries. Each entry names a
//! stack, an optional region, and two target file locations: one for the JSON
//! artifact (must end in `.json`) and one for the type-binding artifact (must
//! end in `.ts`). Parsing turns raw bytes into candidate entries; validation
//! promotes candidates to usable jobs or rejects the whole document.

use vstd::prelude::*;
use vstd::string::*;

use serde_yaml::from_str;
use serde_yaml::Value;
use serde_yaml::Value::Null as YamlNull;
use serde_yaml::Value::String as YamlString;

verus! {

/// A whole-run failure while reading, parsing or validating a configuration
/// document.
#[derive(Debug)]
pub enum Error {
    /// The configuration source was absent (reported by the reader, in the
    /// surrounding program, not by the parser).
    FileNotFound(String),
    /// The input bytes were not valid text, or the text did not have the
    /// expected document shape.
    ParsingError(String),
    /// At least one entry broke a field-presence or extension rule.
    ValidationError(String),
    /// Any other fault.
    Unknown(String),
}

/// A target location for one generated artifact.
pub struct ConfigFile {
    pub location: String,
}

/// One candidate stack-export job, as parsed; may still violate the
/// validation rules.
pub struct ConfigEntry {
    pub stack_name: Option<String>,
    pub region: Option<String>,
    pub json: ConfigFile,
    pub typescript: ConfigFile,
}

/// A path with its trailing slashes removed: `a.json/` names the same file
/// as `a.json`.
pub open spec fn strip_slashes(p: Seq<char>) -> Seq<char>
    decreases p.len(),
{
    if p.len() > 0 && p.last() == '/' {
        strip_slashes(p.drop_last())
    } else {
        p
    }
}

/// The final path component: everything after the last `/`, or the whole
/// path when it has no `/`.
pub open spec fn file_part(p: Seq<char>) -> Seq<char>
    decreases p.len(),
{
    if p.len() == 0 {
        p
    } else if p.last() == '/' {
        Seq::empty()
    } else {
        file_part(p.drop_last()).push(p.last())
    }
}

/// The index of the last `.` in `f`, or -1 when `f` has none.
pub open spec fn last_dot(f: Seq<char>) -> int
    decreases f.len(),
{
    if f.len() == 0 {
        -1
    } else if f.last() == '.' {
        f.len() - 1
    } else {
        last_dot(f.drop_last())
    }
}

/// The lexical extension of a path: trailing slashes are ignored, and the
/// extension is the part of the final component after its last `.`, provided
/// that dot is not the component's first character. A name with no dot, a
/// dotfile such as `.profile`, and the special components `.` and `..` have
/// no extension.
pub open spec fn ext_of(p: Seq<char>) -> Option<Seq<char>> {
    let f = file_part(strip_slashes(p));
    let d = last_dot(f);
    if f == seq!['.'] || f == seq!['.', '.'] {
        None
    } else if d >= 1 {
        Some(f.subrange(d + 1, f.len() as int))
    } else {
        None
    }
}

/// A JSON target location is well-formed when its extension is exactly `json`.
pub open spec fn json_location_valid(p: Seq<char>) -> bool {
    ext_of(p) == Some("json"@)
}

/// A type-binding target location is well-formed when its extension is
/// exactly `ts`.
pub open spec fn typescript_location_valid(p: Seq<char>) -> bool {
    ext_of(p) == Some("ts"@)
}

/// A candidate entry is usable when its stack name is present and both
/// target locations carry the extension their role demands.
pub open spec fn entry_valid(e: ConfigEntry) -> bool {
    &&& e.stack_name is Some
    &&& json_location_valid(e.json.location@)
    &&& typescript_location_valid(e.typescript.location@)
}

/// A document is usable only when every one of its entries is.
pub open spec fn document_valid(entries: Seq<ConfigEntry>) -> bool {
    forall|i: int| 0 <= i < entries.len() ==> entry_valid(#[trigger] entries[i])
}

proof fn lemma_strip_slashes_take(p: Seq<char>, m: int)
    requires
        0 <= m <= p.len(),
        forall|j: int| m <= j < p.len() ==> p[j] == '/',
        m > 0 ==> p[m - 1] != '/',
    ensures
        strip_slashes(p) == p.take(m),
    decreases p.len(),
{
    if p.len() == m {
        assert(p.take(m) =~= p);
    } else {
        assert(p.last() == '/');
        lemma_strip_slashes_take(p.drop_last(), m);
        assert(p.drop_last().take(m) =~= p.take(m));
    }
}

proof fn lemma_file_part_after_slash(p: Seq<char>, k: int)
    requires
        0 <= k < p.len(),
        p[k] == '/',
        forall|j: int| k < j < p.len() ==> p[j] != '/',
    ensures
        file_part(p) == p.subrange(k + 1, p.len() as int),
    decreases p.len(),
{
    if k == p.len() - 1 {
        assert(file_part(p) =~= p.subrange(k + 1, p.len() as int));
    } else {
        lemma_file_part_after_slash(p.drop_last(), k);
        assert(file_part(p) =~= p.subrange(k + 1, p.len() as int));
    }
}

proof fn lemma_file_part_no_slash(p: Seq<char>)
    requires
        forall|j: int| 0 <= j < p.len() ==> p[j] != '/',
    ensures
        file_part(p) == p,
    decreases p.len(),
{
    if p.len() > 0 {
        lemma_file_part_no_slash(p.drop_last());
        assert(file_part(p) =~= p);
    }
}

proof fn lemma_last_dot_at(f: Seq<char>, d: int)
    requires
        0 <= d < f.len(),
        f[d] == '.',
        forall|j: int| d < j < f.len() ==> f[j] != '.',
    ensures
        last_dot(f) == d,
    decreases f.len(),
{
    if d < f.len() - 1 {
        lemma_last_dot_at(f.drop_last(), d);
    }
}

proof fn lemma_no_dot(f: Seq<char>)
    requires
        forall|j: int| 0 <= j < f.len() ==> f[j] != '.',
    ensures
        last_dot(f) == -1,
    decreases f.len(),
{
    if f.len() > 0 {
        lemma_no_dot(f.drop_last());
    }
}

/// The lexical extension of `path`, computed as `ext_of` describes: trailing
/// slashes are ignored, and the extension is the part of the final path
/// component after its last dot — nothing when the component has no dot,
/// only a leading one, or is `.` or `..`.
pub fn extension_of(path: &str) -> (r: Option<String>)
    ensures
        r matches Some(e) ==> ext_of(path@) == Some(e@),
        r is None ==> ext_of(path@) is None,
{
    let n = path.unicode_len();
    let mut m = n;
    while m > 0 && path.get_char(m - 1) == '/'
        invariant
            m <= n,
            n == path@.len(),
            forall|t: int| m <= t < n ==> path@[t] == '/',
        decreases m,
    {
        m -= 1;
    }
    proof {
        lemma_strip_slashes_take(path@, m as int);
    }
    let ghost stripped = strip_slashes(path@);
    let mut i = m;
    while i > 0 && path.get_char(i - 1) != '/'
        invariant
            i <= m,
            m <= n,
            n == path@.len(),
            forall|t: int| i <= t < m ==> path@[t] != '/',
        decreases i,
    {
        i -= 1;
    }
    proof {
        if i > 0 {
            lemma_file_part_after_slash(stripped, i - 1);
        } else {
            lemma_file_part_no_slash(stripped);
        }
        assert(file_part(stripped) =~= path@.subrange(i as int, m as int));
    }
    let ghost f = file_part(stripped);
    if m - i == 1 && path.get_char(i) == '.' {
        proof {
            assert(f =~= seq!['.']);
        }
        return None;
    }
    if m - i == 2 && path.get_char(i) == '.' && path.get_char(i + 1) == '.' {
        proof {
            assert(f =~= seq!['.', '.']);
        }
        return None;
    }
    let mut j = m;
    while j > i && path.get_char(j - 1) != '.'
        invariant
            i <= j <= m,
            m <= n,
            n == path@.len(),
            forall|t: int| j <= t < m ==> path@[t] != '.',
        decreases j,
    {
        j -= 1;
    }
    if j > i {
        let d = j - 1;
        proof {
            lemma_last_dot_at(f, d - i);
        }
        if d > i {
            let ext = path.substring_char(d + 1, m);
            proof {
                assert(ext@ =~= f.subrange(d - i + 1, f.len() as int));
            }
            Some(ext.to_owned())
        } else {
            None
        }
    } else {
        proof {
            lemma_no_dot(f);
        }
        None
    }
}

/// Checks that a JSON target location ends in `.json`.
pub fn validate_json_file(json_file: &ConfigFile) -> (r: Result<(), Error>)
    ensures
        r is Ok <==> json_location_valid(json_file.location@),
        r is Err ==> r->Err_0 is ValidationError,
{
    match extension_of(json_file.location.as_str()) {
        None => Err(
            Error::ValidationError(
                String::from_str("Unable to parse the extension of the JSON file location"),
            ),
        ),
        Some(ext) => {
            let want = String::from_str("json");
            if ext == want {
                Ok(())
            } else {
                Err(
                    Error::ValidationError(
                        String::from_str("The JSON file location has to end with `.json`"),
                    ),
                )
            }
        },
    }
}

/// Checks that a type-binding target location ends in `.ts`.
pub fn validate_typescript_file(typescript_file: &ConfigFile) -> (r: Result<(), Error>)
    ensures
        r is Ok <==> typescript_location_valid(typescript_file.location@),
        r is Err ==> r->Err_0 is ValidationError,
{
    match extension_of(typescript_file.location.as_str()) {
        None => Err(
            Error::ValidationError(
                String::from_str("Unable to parse the extension of the typescript file location"),
            ),
        ),
        Some(ext) => {
            let want = String::from_str("ts");
            if ext == want {
                Ok(())
            } else {
                Err(
                    Error::ValidationError(
                        String::from_str("The TypeScript file location has to end with `.ts`"),
                    ),
                )
            }
        },
    }
}

impl ConfigEntry {
    /// Applies every field-presence and extension rule to this candidate
    /// entry: the entry is accepted exactly when it is well-formed.
    pub fn validate(&self) -> (r: Result<(), Error>)
        ensures
            r is Ok <==> entry_valid(*self),
            r is Err ==> r->Err_0 is ValidationError,
    {
        if self.stack_name.is_none() {
            return Err(
                Error::ValidationError(String::from_str("stack_name is a required field")),
            );
        }
        match validate_json_file(&self.json) {
            Ok(_) => {},
            Err(e) => {
                return Err(e);
            },
        }
        match validate_typescript_file(&self.typescript) {
            Ok(_) => {},
            Err(e) => {
                return Err(e);
            },
        }
        Ok(())
    }
}

/// Validates every entry of a document, stopping at the first failure: the
/// whole document is accepted exactly when every entry is well-formed.
pub fn validate_document(entries: &Vec<ConfigEntry>) -> (r: Result<(), Error>)
    ensures
        r is Ok <==> document_valid(entries@),
        r is Err ==> r->Err_0 is ValidationError,
{
    let mut idx: usize = 0;
    while idx < entries.len()
        invariant
            idx <= entries.len(),
            forall|i: int| 0 <= i < idx ==> entry_valid(#[trigger] entries@[i]),
        decreases entries.len() - idx,
    {
        match entries[idx].validate() {
            Ok(_) => {},
            Err(e) => {
                return Err(e);
            },
        }
        idx += 1;
    }
    Ok(())
}

/// No document that contains an entry without a stack name is ever valid,
/// so validation rejects it as a whole.
pub proof fn lemma_missing_stack_name_rejects(entries: Seq<ConfigEntry>, i: int)
    requires
        0 <= i < entries.len(),
        entries[i].stack_name is None,
    ensures
        !document_valid(entries),
{
}

/// An entry whose JSON location does not carry the `.json` extension —
/// including one with no extension at all — is never valid.
pub proof fn lemma_bad_json_extension_rejects(e: ConfigEntry)
    requires
        ext_of(e.json.location@) != Some("json"@),
    ensures
        !entry_valid(e),
{
}

/// An entry whose type-binding location does not carry the `.ts` extension —
/// including one with no extension at all — is never valid.
pub proof fn lemma_bad_typescript_extension_rejects(e: ConfigEntry)
    requires
        ext_of(e.typescript.location@) != Some("ts"@),
    ensures
        !entry_valid(e),
{
}

/// The characters that a byte sequence decodes to when it is valid UTF-8,
/// and nothing when it is not.
pub uninterp spec fn utf8_decode(bytes: Seq<u8>) -> Option<Seq<char>>;

/// Relies on str::from_utf8: it accepts a byte slice exactly when the bytes
/// are valid UTF-8, and then returns the text they encode.
#[verifier::external_body]
fn decode_utf8(bytes: &[u8]) -> (r: Option<String>)
    ensures
        r is Some <==> utf8_decode(bytes@) is Some,
        r matches Some(s) ==> utf8_decode(bytes@) == Some(s@),
{
    match core::str::from_utf8(bytes) {
        Ok(s) => Some(s.to_owned()),
        Err(_) => None,
    }
}


/// The candidate entries that a text denotes: the YAML document the text
/// parses to, when that document is a sequence of entry-shaped mappings,
/// turned into candidate entries — and nothing when the text does not parse
/// or some element has the wrong shape. A function of the text alone.
pub uninterp spec fn yaml_entries_of(s: Seq<char>) -> Option<Seq<ConfigEntry>>;

/// Relies on serde_yaml::from_str::<Value>: what a text parses to is a
/// function of the text alone. The body parses and converts the parsed
/// mappings to candidate entries, telling variants apart and moving fields
/// only: an absent or null `stack_name` or `region` is kept as nothing, a
/// string one is kept, each target mapping must hold a string `location`,
/// and a parse failure or any other shape is nothing.
#[verifier::external_body]
fn yaml_entries(s: &str) -> (r: Option<Vec<ConfigEntry>>)
    ensures
        r is Some <==> yaml_entries_of(s@) is Some,
        r matches Some(es) ==> yaml_entries_of(s@) == Some(es@),
{
    let v: Value = from_str(s).ok()?;
    let opt = |f: Option<&Value>| match f {
        None | Some(YamlNull) => Some(None),
        Some(YamlString(x)) => Some(Some(x.clone())),
        _ => None,
    };
    let loc = |f: Option<&Value>| match f.and_then(|m| m.get("location")) {
        Some(YamlString(x)) => Some(ConfigFile { location: x.clone() }), _ => None,
    };
    v.as_sequence()?.iter().map(|e| Some(ConfigEntry {
        stack_name: opt(e.get("stack_name"))?, region: opt(e.get("region"))?,
        json: loc(e.get("json"))?, typescript: loc(e.get("typescript"))?,
    })).collect()
}

/// Relies on serde_yaml::from_str::<Value>: reports the format error's own
/// message for a text that does not parse as YAML at all.
#[verifier::external_body]
fn yaml_check(s: &str) -> (r: Result<(), String>)
{
    match from_str::<Value>(s) {
        Ok(_) => Ok(()),
        Err(e) => Err(e.to_string()),
    }
}

/// Parses a configuration document from raw bytes and validates every entry.
///
/// Bytes that are not valid UTF-8 text are a parse failure, and so is text
/// that does not denote a sequence of entry-shaped mappings. A document
/// whose entries all parse is accepted exactly when every entry is
/// well-formed, and returned as it stands; otherwise the whole document is
/// rejected as a validation failure.
pub fn parse(input: &[u8]) -> (r: Result<Vec<ConfigEntry>, Error>)
    ensures
        utf8_decode(input@) is None ==> r is Err && r->Err_0 is ParsingError,
        (utf8_decode(input@) matches Some(t) && yaml_entries_of(t) is None) ==> r is Err
            && r->Err_0 is ParsingError,
        utf8_decode(input@) matches Some(t) ==> (yaml_entries_of(t) matches Some(es) ==> ((r
            is Ok <==> document_valid(es)) && (r matches Ok(out) ==> out@ == es))),
        r is Err ==> r->Err_0 is ParsingError || r->Err_0 is ValidationError,
{
    let text = match decode_utf8(input) {
        Some(t) => t,
        None => {
            return Err(
                Error::ParsingError(String::from_str("the input is not valid UTF-8 text")),
            );
        },
    };
    let entries = match yaml_entries(text.as_str()) {
        Some(es) => es,
        None => {
            let message = match yaml_check(text.as_str()) {
                Ok(_) => String::from_str(
                    "the document does not hold a sequence of entry-shaped mappings",
                ),
                Err(m) => m,
            };
            return Err(Error::ParsingError(message));
        },
    };
    match validate_document(&entries) {
        Ok(_) => Ok(entries),
        Err(e) => Err(e),
    }
}

} // verus!
