//! The rules of the static file server: which file a download link names,
//! how the browsed directory changes, how the tree is named and laid out in a
//! zip archive, and the texts that the server sends.

use vstd::prelude::*;
use vstd::utf8::{decode_utf8, encode_utf8, valid_utf8};
use vstd::string::StringSliceAdditionalSpecFns;
use base64::Engine;
use crate::text::{chars_of, decimal, push_decimal, push_str, string_of};
use crate::path::{parent, spec_file_name, spec_parent};
use crate::download::{
    filename_field, filename_key, first_key_from, key_at, spec_file_name_from_content_disposition,
    trim_end, trim_start, value_end_from, without_quotes,
};

verus! {

/// Why the standard Base64 decoding of some text failed.
#[derive(PartialEq, Eq, Structural, Clone, Copy, Debug)]
pub enum Base64Error {
    /// The byte at the offset is not a Base64 symbol.
    InvalidByte(usize, u8),
    /// The length of the text is not possible for Base64.
    InvalidLength,
    /// The last symbol at the offset has bits that would be discarded.
    InvalidLastSymbol(usize, u8),
    /// The padding is absent or not canonical.
    InvalidPadding,
}

/// The result of decoding `input` with the standard Base64 alphabet and
/// canonical padding, as the `base64` crate's `STANDARD` engine does it.
pub uninterp spec fn standard_base64_decode(input: Seq<u8>) -> Result<Seq<u8>, Base64Error>;

/// `base64::engine::general_purpose::STANDARD.decode`: its result is a fixed
/// function of the input bytes, named `standard_base64_decode`; its error is
/// carried over variant by variant.
#[verifier::external_body]
fn base64_standard_decode(input: &[u8]) -> (r: Result<Vec<u8>, Base64Error>)
    ensures
        match r {
            Ok(v) => standard_base64_decode(input@) == Ok::<Seq<u8>, Base64Error>(v@),
            Err(e) => standard_base64_decode(input@) == Err::<Seq<u8>, Base64Error>(e),
        },
{
    match base64::engine::general_purpose::STANDARD.decode(input) {
        Ok(v) => Ok(v),
        Err(base64::DecodeError::InvalidByte(i, b)) => Err(Base64Error::InvalidByte(i, b)),
        Err(base64::DecodeError::InvalidLength) => Err(Base64Error::InvalidLength),
        Err(base64::DecodeError::InvalidLastSymbol(i, b)) => Err(Base64Error::InvalidLastSymbol(i, b)),
        Err(base64::DecodeError::InvalidPadding) => Err(Base64Error::InvalidPadding),
    }
}

/// Where UTF-8 decoding stopped: the length of the valid prefix, and the
/// length of the invalid sequence after it (`None` when the input ended in
/// the middle of a character).
#[derive(PartialEq, Eq, Structural, Clone, Copy, Debug)]
pub struct Utf8Failure {
    pub valid_up_to: usize,
    pub error_len: Option<u8>,
}

/// The longest prefix of `bytes` that is valid UTF-8 has length `n`.
pub open spec fn longest_valid_prefix(bytes: Seq<u8>, n: int) -> bool {
    &&& 0 <= n <= bytes.len()
    &&& valid_utf8(bytes.take(n))
    &&& forall|j: int| n < j <= bytes.len() ==> !valid_utf8(#[trigger] bytes.take(j))
}

/// `rest` is the start of the UTF-8 encoding of a character, cut short.
pub open spec fn truncated_char(rest: Seq<u8>) -> bool {
    exists|c: char|
        rest.len() > 0 && rest.len() < (#[trigger] encode_utf8(seq![c])).len() && rest
            == encode_utf8(seq![c]).take(rest.len() as int)
}

/// Where a UTF-8 failure lies in `bytes`: when the bytes after the valid
/// prefix are a character cut short by the end of the input, no length is
/// reported (they are then 1 to 3 bytes); otherwise an invalid sequence of 1
/// to 3 bytes starts at the end of the valid prefix.
pub open spec fn utf8_failure_fits(bytes: Seq<u8>, f: Utf8Failure) -> bool {
    let rest = bytes.skip(f.valid_up_to as int);
    match f.error_len {
        Some(n) => 1 <= n <= 3 && f.valid_up_to + n <= bytes.len() && !truncated_char(rest),
        None => truncated_char(rest) && 1 <= bytes.len() - f.valid_up_to <= 3,
    }
}

/// `String::from_utf8`: succeeds exactly on valid UTF-8 and then holds the
/// decoded characters. On failure it reports the length of the longest valid
/// prefix and whether the input ended in the middle of a character (see
/// `utf8_failure_fits`). The exact length of an invalid sequence, which the
/// standard library's documentation does not define beyond "the invalid byte
/// sequence", is only bounded here.
#[verifier::external_body]
fn string_from_utf8(bytes: Vec<u8>) -> (r: Result<String, Utf8Failure>)
    ensures
        r is Ok <==> valid_utf8(bytes@),
        r matches Ok(s) ==> s@ == decode_utf8(bytes@),
        r matches Err(f) ==> longest_valid_prefix(bytes@, f.valid_up_to as int) && utf8_failure_fits(
            bytes@,
            f,
        ),
{
    match String::from_utf8(bytes) {
        Ok(s) => Ok(s),
        Err(e) => {
            let error_len = match e.utf8_error().error_len() {
                Some(n) => Some(n as u8),
                None => None,
            };
            Err(Utf8Failure { valid_up_to: e.utf8_error().valid_up_to(), error_len })
        },
    }
}

/// Why the path of a download link could not be read.
#[derive(PartialEq, Eq, Structural, Clone, Copy, Debug)]
pub enum DownloadPathError {
    /// The link is not valid Base64.
    Base64(Base64Error),
    /// The decoded bytes are not valid UTF-8.
    Utf8(Utf8Failure),
}

/// The path that a download link names, given the result of decoding the
/// link's Base64: decoding errors are reported as such, and the decoded bytes
/// must be UTF-8 text.
pub fn path_from_decoded(decoded: Result<Vec<u8>, Base64Error>) -> (r: Result<String, DownloadPathError>)
    ensures
        match decoded {
            Err(e) => r == Err::<String, DownloadPathError>(DownloadPathError::Base64(e)),
            Ok(bytes) => if valid_utf8(bytes@) {
                r matches Ok(p) && p@ == decode_utf8(bytes@)
            } else {
                r matches Err(DownloadPathError::Utf8(f)) && longest_valid_prefix(
                    bytes@,
                    f.valid_up_to as int,
                ) && utf8_failure_fits(bytes@, f)
            },
        },
{
    match decoded {
        Err(e) => Err(DownloadPathError::Base64(e)),
        Ok(bytes) => match string_from_utf8(bytes) {
            Ok(s) => Ok(s),
            Err(f) => Err(DownloadPathError::Utf8(f)),
        },
    }
}

/// Reads the path of a download link, which is the path's UTF-8 text encoded
/// in standard Base64.
pub fn download_path(encoded: &str) -> (r: Result<String, DownloadPathError>)
    ensures
        match standard_base64_decode(encoded.spec_bytes()) {
            Err(e) => r == Err::<String, DownloadPathError>(DownloadPathError::Base64(e)),
            Ok(bytes) => if valid_utf8(bytes) {
                r matches Ok(p) && p@ == decode_utf8(bytes)
            } else {
                r matches Err(DownloadPathError::Utf8(f)) && longest_valid_prefix(
                    bytes,
                    f.valid_up_to as int,
                ) && utf8_failure_fits(bytes, f)
            },
        },
{
    path_from_decoded(base64_standard_decode(encoded.as_bytes()))
}

/// The text that describes a Base64 failure.
pub open spec fn spec_base64_error_text(e: Base64Error) -> Seq<char> {
    match e {
        Base64Error::InvalidByte(index, byte) => "Invalid byte "@ + decimal(byte as nat)
            + ", offset "@ + decimal(index as nat) + "."@,
        Base64Error::InvalidLength => "Encoded text cannot have a 6-bit remainder."@,
        Base64Error::InvalidLastSymbol(index, byte) => "Invalid last symbol "@ + decimal(
            byte as nat,
        ) + ", offset "@ + decimal(index as nat) + "."@,
        Base64Error::InvalidPadding => "Invalid padding"@,
    }
}

/// The text that describes a UTF-8 failure.
pub open spec fn spec_utf8_error_text(f: Utf8Failure) -> Seq<char> {
    match f.error_len {
        Some(n) => "invalid utf-8 sequence of "@ + decimal(n as nat) + " bytes from index "@
            + decimal(f.valid_up_to as nat),
        None => "incomplete utf-8 byte sequence from index "@ + decimal(f.valid_up_to as nat),
    }
}

/// The body of the "not found" answer to a download link that cannot be read.
pub open spec fn spec_download_path_error_text(e: DownloadPathError) -> Seq<char> {
    "Format not correct: "@ + match e {
        DownloadPathError::Base64(b) => spec_base64_error_text(b),
        DownloadPathError::Utf8(f) => spec_utf8_error_text(f),
    }
}

impl DownloadPathError {
    /// The body of the "not found" answer to the link.
    pub fn text(&self) -> (t: String)
        ensures
            t@ == spec_download_path_error_text(*self),
    {
        let mut out: Vec<char> = Vec::new();
        push_str(&mut out, "Format not correct: ");
        match self {
            DownloadPathError::Base64(b) => match b {
                Base64Error::InvalidByte(index, byte) => {
                    push_str(&mut out, "Invalid byte ");
                    push_decimal(&mut out, *byte as u128);
                    push_str(&mut out, ", offset ");
                    push_decimal(&mut out, *index as u128);
                    push_str(&mut out, ".");
                },
                Base64Error::InvalidLength => {
                    push_str(&mut out, "Encoded text cannot have a 6-bit remainder.");
                },
                Base64Error::InvalidLastSymbol(index, byte) => {
                    push_str(&mut out, "Invalid last symbol ");
                    push_decimal(&mut out, *byte as u128);
                    push_str(&mut out, ", offset ");
                    push_decimal(&mut out, *index as u128);
                    push_str(&mut out, ".");
                },
                Base64Error::InvalidPadding => {
                    push_str(&mut out, "Invalid padding");
                },
            },
            DownloadPathError::Utf8(f) => match f.error_len {
                Some(n) => {
                    push_str(&mut out, "invalid utf-8 sequence of ");
                    push_decimal(&mut out, n as u128);
                    push_str(&mut out, " bytes from index ");
                    push_decimal(&mut out, f.valid_up_to as u128);
                },
                None => {
                    push_str(&mut out, "incomplete utf-8 byte sequence from index ");
                    push_decimal(&mut out, f.valid_up_to as u128);
                },
            },
        }
        string_of(out.as_slice())
    }
}

/// Compares two texts character by character.
fn same_text(a: &str, b: &str) -> (r: bool)
    ensures
        r == (a@ == b@),
{
    let x = chars_of(a);
    let y = chars_of(b);
    if x.len() != y.len() {
        return false;
    }
    let mut i: usize = 0;
    while i < x.len()
        invariant
            x@.len() == y@.len(),
            x@ == a@,
            y@ == b@,
            i <= x@.len(),
            forall|j: int| 0 <= j < i ==> x@[j] == y@[j],
        decreases x@.len() - i,
    {
        if x[i] != y[i] {
            return false;
        }
        i = i + 1;
    }
    assert(x@ =~= y@);
    true
}

/// What a request to change the browsed directory asks for.
pub enum DirRequest {
    /// Browse this directory, if it is one.
    Switch(String),
    /// The parent of the browsed directory was asked for, and it has none.
    NoParent,
    /// The request is not one about the browsed directory.
    Ignore,
}

/// Reads a request to change the browsed directory while `current` is
/// browsed: `change_dir` names the new directory, `up_dir` asks for the parent
/// of the current one, anything else is ignored. The caller switches to the
/// directory asked for only when it is a directory.
pub fn dir_request(current: &str, kind: &str, argument: &str) -> (r: DirRequest)
    ensures
        kind@ == "change_dir"@ ==> (r matches DirRequest::Switch(d) && d@ == argument@),
        kind@ == "up_dir"@ ==> match spec_parent(current@) {
            Some(p) => (r matches DirRequest::Switch(d) && d@ == p),
            None => r is NoParent,
        },
        kind@ != "change_dir"@ && kind@ != "up_dir"@ ==> r is Ignore,
{
    proof {
        reveal_strlit("change_dir");
        reveal_strlit("up_dir");
        assert("change_dir"@ != "up_dir"@) by {
            assert("change_dir"@.len() != "up_dir"@.len());
        }
    }
    if same_text(kind, "change_dir") {
        DirRequest::Switch(argument.to_owned())
    } else if same_text(kind, "up_dir") {
        match parent(current) {
            Some(p) => DirRequest::Switch(p),
            None => DirRequest::NoParent,
        }
    } else {
        DirRequest::Ignore
    }
}

/// The name of the archive of the directory `root`: its last component, or
/// `root` when it has none.
pub open spec fn spec_archive_name(root: Seq<char>) -> Seq<char> {
    match spec_file_name(root) {
        Some(n) => n,
        None => "root"@,
    }
}

/// The name under which the directory `root` is offered as an archive.
pub fn archive_name(root: &str) -> (n: String)
    ensures
        n@ == spec_archive_name(root@),
{
    match crate::path::file_name(root) {
        Some(n) => n,
        None => "root".to_owned(),
    }
}

/// The `Content-Disposition` value that offers an archive named `name`.
pub open spec fn spec_zip_content_disposition(name: Seq<char>) -> Seq<char> {
    "attachment; filename=\""@ + name + ".zip\""@
}

/// The `Content-Disposition` value that offers the archive `name.zip` as an
/// attachment.
pub fn zip_content_disposition(name: &str) -> (v: String)
    ensures
        v@ == spec_zip_content_disposition(name@),
{
    let mut out: Vec<char> = Vec::new();
    push_str(&mut out, "attachment; filename=\"");
    push_str(&mut out, name);
    push_str(&mut out, ".zip\"");
    string_of(out.as_slice())
}

/// The name of the temporary file that an archive is built in, for the
/// process `pid` at the instant `nanos`.
pub open spec fn spec_temp_zip_file_name(pid: u32, nanos: u128) -> Seq<char> {
    "xyi-serve-"@ + decimal(pid as nat) + "-"@ + decimal(nanos as nat) + ".zip"@
}

/// The name of the temporary file that an archive is built in.
pub fn temp_zip_file_name(pid: u32, nanos: u128) -> (n: String)
    ensures
        n@ == spec_temp_zip_file_name(pid, nanos),
{
    let mut out: Vec<char> = Vec::new();
    push_str(&mut out, "xyi-serve-");
    push_decimal(&mut out, pid as u128);
    push_str(&mut out, "-");
    push_decimal(&mut out, nanos);
    push_str(&mut out, ".zip");
    string_of(out.as_slice())
}

/// What kind of entry the file system reports, without following links.
#[derive(PartialEq, Eq, Structural, Clone, Copy, Debug)]
pub enum EntryKind {
    Directory,
    File,
    Symlink,
    Other,
}

/// What goes into the archive for one entry of the tree.
pub enum ZipEntryPlan {
    /// Nothing: links are not followed and other entries are left out.
    Skip,
    /// A directory entry of this name; its contents follow.
    Directory(String),
    /// A file entry of this name.
    File(String),
}

/// `s` with every `\` turned into `/`.
pub open spec fn forward_slashes(s: Seq<char>) -> Seq<char> {
    s.map_values(|c: char| if c == '\\' { '/' } else { c })
}

/// Decides what goes into the archive for an entry of kind `kind` whose path
/// relative to the archived directory is `relative`: archive names always
/// separate directories with `/`, a directory's name ends with `/`, links are
/// not followed and other entries are left out.
pub fn zip_entry_plan(relative: &str, kind: EntryKind) -> (p: ZipEntryPlan)
    ensures
        kind == EntryKind::Directory ==> (p matches ZipEntryPlan::Directory(n) && n@
            == forward_slashes(relative@).push('/')),
        kind == EntryKind::File ==> (p matches ZipEntryPlan::File(n) && n@ == forward_slashes(
            relative@,
        )),
        kind == EntryKind::Symlink || kind == EntryKind::Other ==> p is Skip,
{
    if kind == EntryKind::Symlink || kind == EntryKind::Other {
        return ZipEntryPlan::Skip;
    }
    let cs = chars_of(relative);
    let mut out: Vec<char> = Vec::new();
    let mut i: usize = 0;
    while i < cs.len()
        invariant
            i <= cs@.len(),
            cs@ == relative@,
            out@ == forward_slashes(cs@.take(i as int)),
        decreases cs@.len() - i,
    {
        let c = cs[i];
        if c == '\\' {
            out.push('/');
        } else {
            out.push(c);
        }
        assert(forward_slashes(cs@.take(i + 1)) =~= forward_slashes(cs@.take(i as int)).push(
            if c == '\\' { '/' } else { c },
        ));
        i = i + 1;
    }
    assert(cs@.take(cs@.len() as int) =~= cs@);
    if kind == EntryKind::Directory {
        out.push('/');
        ZipEntryPlan::Directory(string_of(out.as_slice()))
    } else {
        ZipEntryPlan::File(string_of(out.as_slice()))
    }
}

/// The message that tells the browser the state of the browsed directory;
/// its parts are the JSON texts of the files, the folders and the directory.
pub open spec fn spec_state_message(files: Seq<char>, folders: Seq<char>, dir: Seq<char>) -> Seq<char> {
    "{ \"files\": "@ + files + ", \"folders\": "@ + folders + ", \"current_dir\": "@ + dir
        + " }"@
}

/// Frames the message that tells the browser the state of the browsed
/// directory, from the JSON texts of its parts.
pub fn state_message(files: &str, folders: &str, dir: &str) -> (m: String)
    ensures
        m@ == spec_state_message(files@, folders@, dir@),
{
    let mut out: Vec<char> = Vec::new();
    push_str(&mut out, "{ \"files\": ");
    push_str(&mut out, files);
    push_str(&mut out, ", \"folders\": ");
    push_str(&mut out, folders);
    push_str(&mut out, ", \"current_dir\": ");
    push_str(&mut out, dir);
    push_str(&mut out, " }");
    string_of(out.as_slice())
}

/// The address the server listens on for `port`.
pub fn listen_address(port: &str) -> (a: String)
    ensures
        a@ == "0.0.0.0:"@ + port@,
{
    let mut out: Vec<char> = Vec::new();
    push_str(&mut out, "0.0.0.0:");
    push_str(&mut out, port);
    string_of(out.as_slice())
}

/// The line announcing the server for `port`.
pub fn server_banner(port: &str) -> (a: String)
    ensures
        a@ == "Starting server on address http://localhost:"@ + port@,
{
    let mut out: Vec<char> = Vec::new();
    push_str(&mut out, "Starting server on address http://localhost:");
    push_str(&mut out, port);
    string_of(out.as_slice())
}

proof fn lemma_no_key_between(s: Seq<char>, from: int, to: int)
    requires
        0 <= from <= to,
        to + 9 <= s.len(),
        forall|k: int| from <= k < to ==> !key_at(s, k),
    ensures
        first_key_from(s, from) == first_key_from(s, to),
    decreases to - from,
{
    if from < to {
        lemma_no_key_between(s, from + 1, to);
    }
}

proof fn lemma_no_key_after(s: Seq<char>, from: int)
    requires
        0 <= from,
        forall|k: int| from <= k ==> !key_at(s, k),
    ensures
        first_key_from(s, from) is None,
    decreases s.len() - from,
{
    if from + 9 <= s.len() {
        lemma_no_key_after(s, from + 1);
    }
}

proof fn lemma_quoted_run(s: Seq<char>, i: int, k: int)
    requires
        0 <= i <= k <= s.len(),
        forall|j: int| i <= j < k ==> #[trigger] s[j] != '"',
    ensures
        value_end_from(s, i, true) == value_end_from(s, k, true),
    decreases k - i,
{
    if i < k {
        lemma_quoted_run(s, i + 1, k);
    }
}

proof fn lemma_without_quotes_add(a: Seq<char>, b: Seq<char>)
    ensures
        without_quotes(a + b) == without_quotes(a) + without_quotes(b),
    decreases b.len(),
{
    if b.len() == 0 {
        assert(a + b =~= a);
        assert(without_quotes(a) + without_quotes(b) =~= without_quotes(a));
    } else {
        lemma_without_quotes_add(a, b.drop_last());
        assert((a + b).drop_last() =~= a + b.drop_last());
        if b.last() != '"' {
            assert((without_quotes(a) + without_quotes(b.drop_last())).push(b.last()) =~= without_quotes(a)
                + without_quotes(b.drop_last()).push(b.last()));
        }
    }
}

proof fn lemma_without_quotes_none(a: Seq<char>)
    requires
        forall|i: int| 0 <= i < a.len() ==> a[i] != '"',
    ensures
        without_quotes(a) == a,
    decreases a.len(),
{
    if a.len() > 0 {
        lemma_without_quotes_none(a.drop_last());
        assert(a[a.len() - 1] != '"');
        assert(a.drop_last().push(a.last()) =~= a);
    }
}

/// A name that the server's archive header can carry back unchanged: it holds
/// no `"` and no `filename=`.
pub open spec fn plain_archive_name(name: Seq<char>) -> bool {
    &&& forall|i: int| 0 <= i < name.len() ==> name[i] != '"'
    &&& forall|i: int| !key_at(name, i)
}

/// The download command reads back the archive name that the server offers:
/// the file name taken from the server's `Content-Disposition` value for an
/// archive named `name` is `name.zip`.
pub proof fn law_archive_header_names_the_download(name: Seq<char>)
    requires
        plain_archive_name(name),
    ensures
        spec_file_name_from_content_disposition(spec_zip_content_disposition(name)) == Some(
            name + ".zip"@,
        ),
{
    reveal_strlit("attachment; filename=\"");
    reveal_strlit(".zip\"");
    reveal_strlit(".zip");
    let head: Seq<char> = "attachment; filename=\""@;
    let tail: Seq<char> = ".zip\""@;
    let s = head + name + tail;
    assert(s == spec_zip_content_disposition(name));
    let n = name.len() as int;
    assert(s.len() == 27 + n);
    assert forall|i: int| 0 <= i < 22 implies s[i] == head[i] by {}
    assert forall|i: int| 0 <= i < n implies s[22 + i] == name[i] by {}
    assert forall|i: int| 0 <= i < 5 implies s[22 + n + i] == tail[i] by {}
    // the key first starts at 12
    assert forall|k: int| 0 <= k < 12 implies !key_at(s, k) by {
        if key_at(s, k) {
            assert(s.subrange(k, k + 9)[0] == s[k]);
            assert(filename_key()[0] == 'f');
        }
    }
    assert(s.subrange(12, 21) =~= filename_key());
    assert(key_at(s, 12));
    lemma_no_key_between(s, 0, 12);
    assert(first_key_from(s, 0) == Some(12int));
    // no further key from 21 on
    assert forall|k: int| 21 <= k implies !key_at(s, k) by {
        if key_at(s, k) {
            let w = s.subrange(k, k + 9);
            assert(w == filename_key());
            if k == 21 {
                assert(w[0] == s[21]);
            } else if k + 9 <= 22 + n {
                assert(name.subrange(k - 22, k - 13) =~= w);
                assert(key_at(name, k - 22));
            } else {
                let t = 22 + n - k;
                assert(0 < t < 9);
                assert(w[t] == s[22 + n]);
                assert(s[22 + n] == '.');
                assert(filename_key()[t] != '.');
            }
        }
    }
    lemma_no_key_after(s, 21);
    // the value runs to the end: the name and `.zip` lie between quotes
    assert forall|j: int| 22 <= j < 26 + n implies #[trigger] s[j] != '"' by {
        if j < 22 + n {
            assert(s[j] == name[j - 22]);
        } else {
            assert(s[j] == tail[j - 22 - n]);
        }
    }
    lemma_quoted_run(s, 22, 26 + n);
    assert(s[21] == '"');
    assert(s[26 + n] == '"');
    assert(value_end_from(s, 27 + n, false) == s.len());
    assert(value_end_from(s, 26 + n, true) == value_end_from(s, 27 + n, false));
    assert(value_end_from(s, 21, false) == value_end_from(s, 22, true));
    assert(value_end_from(s, 21, false) == s.len());
    let field = s.subrange(21, s.len() as int);
    assert(filename_field(s) == Some(field));
    assert(field =~= seq!['"'] + name + tail);
    assert(field[0] == '"');
    assert(trim_start(field) == field);
    assert(field.last() == '"');
    assert(trim_end(field) == field);
    lemma_without_quotes_add(seq!['"'] + name, tail);
    lemma_without_quotes_add(seq!['"'], name);
    lemma_without_quotes_none(name);
    let q: Seq<char> = seq!['"'];
    assert(q.drop_last() =~= Seq::<char>::empty());
    assert(q.last() == '"');
    assert(without_quotes(Seq::<char>::empty()) == Seq::<char>::empty());
    assert(without_quotes(q) == without_quotes(q.drop_last()));
    assert(without_quotes(q) =~= Seq::<char>::empty());
    assert(tail =~= ".zip"@.push('"'));
    assert(tail.drop_last() =~= ".zip"@);
    lemma_without_quotes_none(".zip"@);
    assert(without_quotes(tail) == ".zip"@);
    assert(without_quotes(field) =~= name + ".zip"@);
}

} // verus!
