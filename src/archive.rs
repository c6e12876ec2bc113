//! Tar archives as sequences of members, read and written in memory.
use vstd::prelude::*;

verus! {

/// The header block of a tar member is this many bytes.
pub const HEADER_LEN: usize = 512;

/// One member of a tar archive: its path, the header block it came with, and
/// its contents.
pub struct TarEntry {
    pub path: Vec<u8>,
    pub header: Vec<u8>,
    pub data: Vec<u8>,
}

/// The mathematical value of a [`TarEntry`].
pub struct EntryView {
    pub path: Seq<u8>,
    pub header: Seq<u8>,
    pub data: Seq<u8>,
}

impl View for TarEntry {
    type V = EntryView;

    open spec fn view(&self) -> EntryView {
        EntryView { path: self.path@, header: self.header@, data: self.data@ }
    }
}

/// The values of a sequence of members.
pub open spec fn views(es: Seq<TarEntry>) -> Seq<EntryView> {
    es.map_values(|e: TarEntry| e@)
}

/// Every member carries a whole header block.
pub open spec fn headers_complete(es: Seq<EntryView>) -> bool {
    forall|i: int| 0 <= i < es.len() ==> (#[trigger] es[i]).header.len() == HEADER_LEN
}

/// The members that the tar reader finds in `bytes`, in archive order, or
/// `None` where it reports the stream as malformed.
pub uninterp spec fn tar_members(bytes: Seq<u8>) -> Option<Seq<EntryView>>;

/// The archive that the tar writer produces for `entries`, or `None` where it
/// refuses one of them (a path that is not UTF-8, or one it cannot store).
pub uninterp spec fn tar_image(entries: Seq<EntryView>) -> Option<Seq<u8>>;

pub fn copy_bytes(v: &Vec<u8>) -> (r: Vec<u8>)
    ensures
        r@ == v@,
{
    let r = v.clone();
    assert(r@ =~= v@);
    r
}

/// Relies on tar's `Archive::entries` over an in-memory reader: each member's
/// path as `Entry::path_bytes` gives it (long-name records resolved), its
/// 512-byte header block and its contents, in archive order.
#[verifier::external_body]
pub(crate) fn read_members(bytes: &[u8]) -> (r: std::io::Result<Vec<TarEntry>>)
    ensures
        r is Ok <==> tar_members(bytes@) is Some,
        r matches Ok(es) ==> views(es@) == tar_members(bytes@).unwrap(),
        r matches Ok(es) ==> headers_complete(views(es@)),
{
    let mut archive = tar::Archive::new(bytes);
    let mut out = Vec::new();
    for entry in archive.entries()? {
        let mut entry = entry?;
        let mut data = Vec::new();
        std::io::Read::read_to_end(&mut entry, &mut data)?;
        let path = entry.path_bytes().into_owned();
        let header = entry.header().as_bytes().to_vec();
        out.push(TarEntry { path, header, data });
    }
    Ok(out)
}

/// Relies on tar's `Builder::append_data` and `Builder::into_inner` over an
/// in-memory writer: each entry is written in order with its own header
/// block, whose size is set to the contents' length and whose path is set by
/// the builder, followed by the end-of-archive blocks. A path that is not
/// UTF-8 is refused with the decoding error (`std::str::from_utf8`).
#[verifier::external_body]
pub(crate) fn write_members(entries: &Vec<TarEntry>) -> (r: std::io::Result<Vec<u8>>)
    requires
        headers_complete(views(entries@)),
    ensures
        r is Ok <==> tar_image(views(entries@)) is Some,
        r matches Ok(b) ==> b@ == tar_image(views(entries@)).unwrap(),
{
    let mut builder = tar::Builder::new(Vec::new());
    for e in entries.iter() {
        let mut header = tar::Header::from_byte_slice(&e.header).clone();
        header.set_size(e.data.len() as u64);
        let path = std::str::from_utf8(&e.path).map_err(std::io::Error::other)?;
        builder.append_data(&mut header, path, e.data.as_slice())?;
    }
    builder.into_inner()
}

} // verus!
