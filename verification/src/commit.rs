//! Commits and their out-of-band header fields.

use crate::bytes::{append_bytes, bytes_eq, bytes_to_vec, parse_u32, parsed_u32};
use crate::oid::Oid;
use crate::position::{lemma_position_is, lemma_position_of, position_of};
use bstr::BStr;
use vstd::prelude::*;
use vstd::string::StringSliceAdditionalSpecFns;
use vstd::utf8::{decode_utf8, valid_utf8};

verus! {

/// One extra header field of a commit: a name and a value of raw bytes.
#[derive(Debug)]
pub struct Header {
    pub name: Vec<u8>,
    pub value: Vec<u8>,
}

/// A header field as mathematical data.
pub struct HeaderView {
    pub name: Seq<u8>,
    pub value: Seq<u8>,
}

impl View for Header {
    type V = HeaderView;

    open spec fn view(&self) -> HeaderView {
        HeaderView { name: self.name@, value: self.value@ }
    }
}

/// What a commit says: its parents, its tree, its message and its header
/// fields. The header fields hold everything else that a commit records: who
/// wrote it, its change identity, a signature, a conflict marker. The
/// identity of a commit is derived from exactly this.
#[derive(Debug)]
pub struct Commit {
    pub parents: Vec<Oid>,
    pub tree: Oid,
    pub message: Vec<u8>,
    pub headers: Vec<Header>,
}

/// A commit as mathematical data.
pub struct CommitView {
    pub parents: Seq<Oid>,
    pub tree: Oid,
    pub message: Seq<u8>,
    pub headers: Seq<HeaderView>,
}

/// The header fields of a commit as mathematical data, in their order.
pub open spec fn headers_view(headers: Seq<Header>) -> Seq<HeaderView> {
    Seq::new(headers.len(), |i: int| headers[i]@)
}

impl View for Commit {
    type V = CommitView;

    open spec fn view(&self) -> CommitView {
        CommitView {
            parents: self.parents@,
            tree: self.tree,
            message: self.message@,
            headers: headers_view(self.headers@),
        }
    }
}

/// The names of a list of header fields, in their order.
pub open spec fn header_names(headers: Seq<HeaderView>) -> Seq<Seq<u8>> {
    Seq::new(headers.len(), |i: int| headers[i].name)
}

/// The value of the first header field with the given name.
pub open spec fn header_field(headers: Seq<HeaderView>, name: Seq<u8>) -> Option<Seq<u8>> {
    let k = position_of(header_names(headers), name);
    if k < headers.len() {
        Some(headers[k].value)
    } else {
        None
    }
}

/// The name of the header field that holds the change identity.
pub open spec fn change_id_field() -> Seq<u8> {
    "change-id".spec_bytes()
}

/// The name of the header field that holds a signature.
pub open spec fn signature_field() -> Seq<u8> {
    "gpgsig".spec_bytes()
}

/// The name of the header field that marks a conflicted commit.
pub open spec fn conflicted_field() -> Seq<u8> {
    "conflicted".spec_bytes()
}

/// The change identity of a commit: the text of its change identity header.
/// A commit without that header, with an empty one, or with one that is not
/// UTF-8 has no change identity.
pub open spec fn change_id_of(c: CommitView) -> Option<Seq<char>> {
    match header_field(c.headers, change_id_field()) {
        Some(v) => if v.len() > 0 && valid_utf8(v) {
            Some(decode_utf8(v))
        } else {
            None
        },
        None => None,
    }
}

/// Whether a commit carries a conflict marker.
pub open spec fn is_conflicted_of(c: CommitView) -> bool {
    header_field(c.headers, conflicted_field()) is Some
}

/// The number of conflicted paths that a commit's conflict marker lists.
pub open spec fn conflicted_files_of(c: CommitView) -> Option<u32> {
    match header_field(c.headers, conflicted_field()) {
        Some(v) => parsed_u32(v),
        None => None,
    }
}

/// The text of an optional string.
pub open spec fn text_of(s: Option<String>) -> Option<Seq<char>> {
    match s {
        Some(s) => Some(s@),
        None => None,
    }
}

/// The bytes that a `BStr` holds.
pub uninterp spec fn bstr_bytes(s: &BStr) -> Seq<u8>;

/// `bstr::BStr`: a byte string that is not assumed to be text. Nothing of it
/// is known here but the bytes that [`bstr_bytes`] names.
#[verifier::external_type_specification]
#[verifier::external_body]
pub struct ExBStr(BStr);

/// `bstr::BStr::new`: a view of the given bytes as a byte string, holding the
/// same bytes in the same order.
#[verifier::external_body]
fn as_bstr(bytes: &[u8]) -> (r: &BStr)
    ensures
        bstr_bytes(r) == bytes@,
{
    BStr::new(bytes)
}

/// `String::from_utf8`: the text that the bytes encode, or nothing where they
/// are not valid UTF-8.
#[verifier::external_body]
fn string_from_utf8(bytes: Vec<u8>) -> (r: Option<String>)
    ensures
        text_of(r) == if valid_utf8(bytes@) {
            Some(decode_utf8(bytes@))
        } else {
            None::<Seq<char>>
        },
{
    match String::from_utf8(bytes) {
        Ok(s) => Some(s),
        Err(_) => None,
    }
}

impl Commit {
    /// The value of the first header field named `field`, if there is one.
    pub fn header_field_bytes(&self, field: &str) -> (r: Option<&Vec<u8>>)
        ensures
            match r {
                Some(v) => header_field(self@.headers, field.spec_bytes()) == Some(v@),
                None => header_field(self@.headers, field.spec_bytes()) is None,
            },
    {
        let name = field.as_bytes();
        let ghost names = header_names(self@.headers);
        let mut i: usize = 0;
        while i < self.headers.len()
            invariant
                i <= self.headers@.len(),
                names == header_names(self@.headers),
                name@ == field.spec_bytes(),
                forall|k: int| 0 <= k < i ==> names[k] != name@,
            decreases self.headers@.len() - i,
        {
            if bytes_eq(self.headers[i].name.as_slice(), name) {
                proof {
                    lemma_position_is(names, name@, i as int);
                }
                return Some(&self.headers[i].value);
            }
            i += 1;
        }
        proof {
            lemma_position_is(names, name@, i as int);
        }
        None
    }
}

/// The header fields after the field `name` was set to `value`: the first
/// field of that name gets the value, and where there is none the field is
/// added at the end.
pub open spec fn with_field(headers: Seq<HeaderView>, name: Seq<u8>, value: Seq<u8>) -> Seq<
    HeaderView,
> {
    let k = position_of(header_names(headers), name);
    if k < headers.len() {
        headers.update(k, HeaderView { name, value })
    } else {
        headers.push(HeaderView { name, value })
    }
}

/// Setting a field changes the value of that field and of no other.
pub proof fn lemma_with_field(
    headers: Seq<HeaderView>,
    name: Seq<u8>,
    value: Seq<u8>,
    other: Seq<u8>,
)
    ensures
        header_field(with_field(headers, name, value), other) == if other == name {
            Some(value)
        } else {
            header_field(headers, other)
        },
{
    let names = header_names(headers);
    let next = with_field(headers, name, value);
    let k = position_of(names, name);
    lemma_position_of(names, name);
    lemma_position_of(names, other);
    if k < headers.len() {
        assert(header_names(next) =~= names);
    } else {
        assert(header_names(next) =~= names.push(name));
        assert(names.push(name).drop_last() =~= names);
    }
}

/// Sets the header field `name` to `value`.
pub fn set_header(headers: &mut Vec<Header>, name: &[u8], value: Vec<u8>)
    ensures
        headers_view(final(headers)@) == with_field(headers_view(old(headers)@), name@, value@),
{
    let ghost before = headers_view(headers@);
    let ghost names = header_names(before);
    let mut i: usize = 0;
    while i < headers.len()
        invariant
            *headers == *old(headers),
            before == headers_view(headers@),
            names == header_names(before),
            i <= headers@.len(),
            forall|k: int| 0 <= k < i ==> names[k] != name@,
        decreases headers@.len() - i,
    {
        if bytes_eq(headers[i].name.as_slice(), name) {
            proof {
                lemma_position_is(names, name@, i as int);
            }
            headers.set(i, Header { name: bytes_to_vec(name), value });
            assert(headers_view(headers@) =~= before.update(
                i as int,
                HeaderView { name: name@, value: value@ },
            ));
            return ;
        }
        i += 1;
    }
    proof {
        lemma_position_is(names, name@, i as int);
    }
    headers.push(Header { name: bytes_to_vec(name), value });
    assert(headers_view(headers@) =~= before.push(HeaderView { name: name@, value: value@ }));
}

/// A copy of a list of header fields.
pub fn copy_headers(headers: &Vec<Header>) -> (r: Vec<Header>)
    ensures
        headers_view(r@) == headers_view(headers@),
{
    let mut out: Vec<Header> = Vec::new();
    let mut i: usize = 0;
    while i < headers.len()
        invariant
            i <= headers@.len(),
            out@.len() == i,
            forall|k: int| 0 <= k < i ==> out@[k]@ == headers@[k]@,
        decreases headers@.len() - i,
    {
        out.push(
            Header {
                name: bytes_to_vec(headers[i].name.as_slice()),
                value: bytes_to_vec(headers[i].value.as_slice()),
            },
        );
        i += 1;
    }
    assert(headers_view(out@) =~= headers_view(headers@));
    out
}

/// The value of a header field as a commit object writes it: a line break
/// inside the value is followed by a space, which marks the next line as a
/// continuation.
pub open spec fn continued(value: Seq<u8>) -> Seq<u8>
    decreases value.len(),
{
    if value.len() == 0 {
        Seq::empty()
    } else if value.last() == 10 {
        continued(value.drop_last()) + seq![10u8, 32u8]
    } else {
        continued(value.drop_last()).push(value.last())
    }
}

/// The header fields as a commit object writes them: for each field its
/// name, a space, its value with continuation lines, and a line break.
pub open spec fn header_lines(headers: Seq<HeaderView>) -> Seq<u8>
    decreases headers.len(),
{
    if headers.len() == 0 {
        Seq::empty()
    } else {
        header_lines(headers.drop_last()) + headers.last().name + seq![32u8] + continued(
            headers.last().value,
        ) + seq![10u8]
    }
}

/// Appends the header fields to `out` as a commit object writes them.
pub fn write_headers(out: &mut Vec<u8>, headers: &Vec<Header>)
    ensures
        final(out)@ == old(out)@ + header_lines(headers_view(headers@)),
{
    let ghost all = headers_view(headers@);
    let mut i: usize = 0;
    assert(old(out)@ + header_lines(all.take(0)) =~= old(out)@);
    while i < headers.len()
        invariant
            i <= headers@.len(),
            all == headers_view(headers@),
            out@ == old(out)@ + header_lines(all.take(i as int)),
        decreases headers@.len() - i,
    {
        let header = &headers[i];
        let ghost start = out@;
        append_bytes(out, header.name.as_slice());
        out.push(32u8);
        let ghost named = out@;
        let mut k: usize = 0;
        assert(named + continued(header.value@.take(0)) =~= named);
        while k < header.value.len()
            invariant
                k <= header.value@.len(),
                out@ == named + continued(header.value@.take(k as int)),
            decreases header.value@.len() - k,
        {
            let byte = header.value[k];
            out.push(byte);
            if byte == 10u8 {
                out.push(32u8);
            }
            proof {
                assert(header.value@.take(k + 1).drop_last() =~= header.value@.take(k as int));
                assert(header.value@.take(k + 1).last() == byte);
                assert(out@ =~= named + continued(header.value@.take(k + 1)));
            }
            k += 1;
        }
        out.push(10u8);
        proof {
            assert(header.value@.take(header.value@.len() as int) =~= header.value@);
            assert(all.take(i + 1).drop_last() =~= all.take(i as int));
            assert(all.take(i + 1).last() == header@);
            assert(out@ =~= old(out)@ + header_lines(all.take(i + 1)));
        }
        i += 1;
    }
    assert(all.take(all.len() as int) =~= all);
}

/// The metadata of a commit that lives outside its message and tree.
pub trait CommitExt {
    /// The commit message as bytes, without assuming any encoding.
    fn message_bstr(&self) -> &BStr;

    /// The stable identity of the change that the commit makes.
    fn change_id(&self) -> Option<String>;

    /// Whether the commit carries a signature.
    fn is_signed(&self) -> bool;

    /// Whether the commit carries a conflict marker.
    fn is_conflicted(&self) -> bool;

    /// The number of conflicted paths that the conflict marker lists.
    fn conflicted_files(&self) -> Option<u32>;

    /// Whether the commit has more than one parent.
    fn is_merge(&self) -> bool;
}

impl CommitExt for Commit {
    fn message_bstr(&self) -> (r: &BStr)
        ensures
            bstr_bytes(r) == self@.message,
    {
        as_bstr(self.message.as_slice())
    }

    fn change_id(&self) -> (r: Option<String>)
        ensures
            text_of(r) == change_id_of(self@),
    {
        match self.header_field_bytes("change-id") {
            Some(cid) => {
                if cid.len() == 0 {
                    None
                } else {
                    string_from_utf8(bytes_to_vec(cid.as_slice()))
                }
            },
            None => None,
        }
    }

    fn is_signed(&self) -> (r: bool)
        ensures
            r == (header_field(self@.headers, signature_field()) is Some),
    {
        self.header_field_bytes("gpgsig").is_some()
    }

    fn is_conflicted(&self) -> (r: bool)
        ensures
            r == is_conflicted_of(self@),
    {
        let cid = self.header_field_bytes("conflicted");
        cid.is_some()
    }

    fn conflicted_files(&self) -> (r: Option<u32>)
        ensures
            r == conflicted_files_of(self@),
    {
        let cid = self.header_field_bytes("conflicted");
        if let Some(cid) = cid {
            parse_u32(cid.as_slice())
        } else {
            None
        }
    }

    fn is_merge(&self) -> (r: bool)
        ensures
            r == (self@.parents.len() > 1),
    {
        self.parents.len() > 1
    }
}

} // verus!
