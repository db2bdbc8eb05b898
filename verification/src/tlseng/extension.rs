//! The extensions of a received hello.
//!
//! On the wire an extension is `type | length | data`. A block of them is taken apart as a
//! whole: every length has to fit, and nothing may be left over.

use bytes::{Buf, Bytes, BytesMut};
use vstd::prelude::*;
use vstd::utf8::{encode_utf8, valid_utf8};

use crate::buffers::{buf_slice, buf_view, bytes_slice, bytes_view, get_u16};
use crate::errors::{ErrorAction, ErrorStage, TlsError};
use crate::parser::Parser;
use crate::tlseng::consts::TYPE_HOST_NAME;
use crate::tlseng::types::TlsExtensions;
use crate::utils::byte_order::{be16, low16, low_u16, read_u16, slice_range, u16_at};
use crate::utils::text::utf8_text;

verus! {

/// One extension: its type and its data.
#[derive(Debug)]
pub struct Extension {
    /// The type.
    pub etype: u16,
    /// The length of the data.
    pub _elen: u16,
    /// The data.
    pub data: Bytes,
}

/// The extensions of a hello, in order.
#[derive(Debug)]
pub struct ExtensionStack {
    /// The extensions.
    pub extensions: Vec<Extension>,
}

/// The bytes of one extension.
pub open spec fn ext_bytes(etype: u16, data: Seq<u8>) -> Seq<u8> {
    be16(etype) + be16(low16(data.len())) + data
}

/// The bytes of extensions, one after the other.
pub open spec fn block_bytes(entries: Seq<(u16, Seq<u8>)>) -> Seq<u8>
    decreases entries.len(),
{
    if entries.len() == 0 {
        Seq::empty()
    } else {
        ext_bytes(entries[0].0, entries[0].1) + block_bytes(entries.drop_first())
    }
}

/// What a block of bytes is, read as extensions.
pub enum BlockScan {
    /// Some length reaches beyond the end.
    Short,
    /// Bytes are left over that are no extension.
    Trailing,
    /// Extensions, and nothing else.
    Whole(Seq<(u16, Seq<u8>)>),
}

/// Reads a block as extensions.
pub open spec fn scan(b: Seq<u8>) -> BlockScan
    decreases b.len(),
{
    if b.len() == 0 {
        BlockScan::Whole(Seq::empty())
    } else if b.len() < 4 {
        BlockScan::Trailing
    } else {
        let n = u16_at(b, 2) as int;
        if 4 + n > b.len() {
            BlockScan::Short
        } else {
            match scan(b.subrange(4 + n, b.len() as int)) {
                BlockScan::Whole(entries) => BlockScan::Whole(
                    seq![(u16_at(b, 0), b.subrange(4, 4 + n))] + entries,
                ),
                other => other,
            }
        }
    }
}

/// The data of the first extension of a type.
pub open spec fn first_of(entries: Seq<(u16, Seq<u8>)>, etype: u16) -> Option<Seq<u8>>
    decreases entries.len(),
{
    if entries.len() == 0 {
        None
    } else if entries[0].0 == etype {
        Some(entries[0].1)
    } else {
        first_of(entries.drop_first(), etype)
    }
}

/// The host name in the data of a `server_name` extension: `list length | name type |
/// name length | name`, every length within what holds it.
pub open spec fn sni_host(data: Seq<u8>) -> Option<Seq<u8>> {
    if data.len() < 2 || 2 + u16_at(data, 0) > data.len() {
        None
    } else {
        let list = data.subrange(2, 2 + u16_at(data, 0));
        if list.len() < 3 || list[0] != TYPE_HOST_NAME || 3 + u16_at(list, 1) > list.len() {
            None
        } else {
            Some(list.subrange(3, 3 + u16_at(list, 1)))
        }
    }
}

/// A block of extensions whose data fit their length fields is read back as it was.
pub proof fn lemma_block_round_trip(entries: Seq<(u16, Seq<u8>)>)
    requires
        forall|i: int| 0 <= i < entries.len() ==> (#[trigger] entries[i]).1.len() <= 0xffff,
    ensures
        scan(block_bytes(entries)) == BlockScan::Whole(entries),
    decreases entries.len(),
{
    let b = block_bytes(entries);
    if entries.len() > 0 {
        let (etype, data) = entries[0];
        let tail = entries.drop_first();
        let n = data.len() as int;
        assert forall|i: int| 0 <= i < tail.len() implies (#[trigger] tail[i]).1.len()
            <= 0xffff by {
            assert(tail[i] == entries[i + 1]);
        }
        lemma_block_round_trip(tail);
        assert(b[0] == be16(etype)[0] && b[1] == be16(etype)[1]);
        assert(b[2] == be16(low16(data.len()))[0] && b[3] == be16(low16(data.len()))[1]);
        assert(u16_at(b, 0) == etype);
        assert(u16_at(b, 2) == n);
        assert(b.subrange(4, 4 + n) =~= data);
        assert(b.subrange(4 + n, b.len() as int) =~= block_bytes(tail));
        assert(seq![(etype, data)] + tail =~= entries);
    } else {
        assert(entries =~= Seq::empty());
    }
}

/// A block of one extension is that extension.
pub proof fn lemma_block_single(etype: u16, data: Seq<u8>)
    ensures
        block_bytes(seq![(etype, data)]) == ext_bytes(etype, data),
{
    let one = seq![(etype, data)];
    assert(one.drop_first() =~= Seq::empty());
    assert(block_bytes(Seq::<(u16, Seq<u8>)>::empty()) =~= Seq::<u8>::empty());
    assert(block_bytes(one) =~= ext_bytes(etype, data));
}

/// Two blocks behind each other are one block.
pub proof fn lemma_block_concat(a: Seq<(u16, Seq<u8>)>, b: Seq<(u16, Seq<u8>)>)
    ensures
        block_bytes(a + b) == block_bytes(a) + block_bytes(b),
    decreases a.len(),
{
    if a.len() == 0 {
        assert(a + b =~= b);
        assert(block_bytes(a) + block_bytes(b) =~= block_bytes(b));
    } else {
        lemma_block_concat(a.drop_first(), b);
        assert((a + b).drop_first() =~= a.drop_first() + b);
        assert(block_bytes(a + b) =~= block_bytes(a) + block_bytes(b));
    }
}

impl Extension {
    /// An extension of the given parts.
    pub fn new(etype: u16, data: Bytes) -> (r: Self)
        ensures
            r.etype == etype,
            r._elen == low16(bytes_view(data).len()),
            r.data == data,
    {
        Self { etype, _elen: low_u16(data.len()), data }
    }
}

impl ExtensionStack {
    /// Types and data, in order.
    pub open spec fn entries(self) -> Seq<(u16, Seq<u8>)> {
        Seq::new(
            self.extensions@.len(),
            |i: int| (self.extensions@[i].etype, bytes_view(self.extensions@[i].data)),
        )
    }

    /// Whether every extension knows the length of its data.
    pub open spec fn wf(self) -> bool {
        forall|i: int|
            0 <= i < self.extensions@.len() ==> (#[trigger] self.extensions@[i])._elen == low16(
                bytes_view(self.extensions@[i].data).len(),
            )
    }

    /// The data of the first extension of a type.
    pub fn find_by_type(&self, etype: u16) -> (r: Option<Bytes>)
        ensures
            match first_of(self.entries(), etype) {
                Some(data) => r matches Some(b) && bytes_view(b) == data,
                None => r is None,
            },
    {
        let ghost all = self.entries();
        let mut i: usize = 0;
        assert(all.subrange(0, all.len() as int) =~= all);
        while i < self.extensions.len()
            invariant
                i <= self.extensions@.len(),
                all == self.entries(),
                first_of(all, etype) == first_of(all.subrange(i as int, all.len() as int), etype),
            decreases self.extensions@.len() - i,
        {
            let ghost here = all.subrange(i as int, all.len() as int);
            assert(here[0] == (self.extensions@[i as int].etype, bytes_view(
                self.extensions@[i as int].data,
            )));
            if self.extensions[i].etype == etype {
                return Some(self.extensions[i].data.clone());
            }
            assert(here.drop_first() =~= all.subrange(i + 1, all.len() as int));
            i = i + 1;
        }
        None
    }

    /// The host name that the hello asks for, if it does so in good form and in UTF-8.
    /// It is what the other side wrote, nothing more is known of it.
    pub fn server_name(&self) -> (r: Option<String>)
        ensures
            match first_of(self.entries(), TlsExtensions::SNI) {
                Some(data) => match sni_host(data) {
                    Some(host) if valid_utf8(host) => r matches Some(name) && encode_utf8(name@)
                        == host,
                    _ => r is None,
                },
                None => r is None,
            },
    {
        let data: Bytes = match self.find_by_type(TlsExtensions::SNI) {
            Some(data) => data,
            None => {
                return None;
            },
        };
        let data: &[u8] = bytes_slice(&data);
        if data.len() < 2 {
            return None;
        }
        let list_len: usize = read_u16(data, 0) as usize;
        if list_len > data.len() - 2 {
            return None;
        }
        let list: &[u8] = slice_range(data, 2, 2 + list_len);
        if list.len() < 3 || list[0] != TYPE_HOST_NAME {
            return None;
        }
        let name_len: usize = read_u16(list, 1) as usize;
        if name_len > list.len() - 3 {
            return None;
        }
        utf8_text(slice_range(list, 3, 3 + name_len))
    }
}

impl Parser for ExtensionStack {
    type Error = TlsError;

    open spec fn complete(b: Seq<u8>) -> bool {
        !(scan(b) is Short)
    }

    /// A block that ends too early is left alone, and so is one with bytes left over,
    /// which is an error. Extensions and nothing else are taken as a whole.
    open spec fn outcome(b: Seq<u8>, r: Result<Option<Self>, TlsError>, rest: Seq<u8>) -> bool {
        match scan(b) {
            BlockScan::Short => r matches Ok(None) && rest == b,
            BlockScan::Trailing => {
                &&& r matches Err(e) && e.is_error(
                    ErrorStage::Tls("Malformed extension stack: trailing data"),
                    ErrorAction::Drop,
                    Seq::empty(),
                )
                &&& rest == b
            },
            BlockScan::Whole(entries) => {
                &&& r matches Ok(Some(stack)) && stack.entries() == entries && stack.wf()
                &&& rest.len() == 0
            },
        }
    }

    fn can_parse(bytes: &BytesMut) -> (r: bool) {
        let ghost enough = ExtensionStack::complete(buf_view(*bytes));
        match block_end(buf_slice(bytes)) {
            Some(_) => true,
            None => false,
        }
    }

    fn parse(bytes: &mut BytesMut) -> (r: Result<Option<Self>, TlsError>) {
        let ghost waits = ExtensionStack::outcome(buf_view(*bytes), Ok(None), buf_view(*bytes));
        let ghost b = buf_view(*bytes);
        let data_len: usize = bytes.len();
        let offset: usize = match block_end(buf_slice(bytes)) {
            Some(offset) => offset,
            None => {
                return Ok(None);
            },
        };
        if offset != data_len {
            return Err(
                TlsError::new(
                    ErrorStage::Tls("Malformed extension stack: trailing data"),
                    ErrorAction::Drop,
                    Bytes::new(),
                ),
            );
        }
        let ghost all = scan(b)->Whole_0;
        let mut stack: ExtensionStack = ExtensionStack { extensions: Vec::new() };
        assert(stack.entries() + all =~= all);
        while bytes.len() >= 4
            invariant
                scan(buf_view(*bytes)) is Whole,
                all == stack.entries() + scan(buf_view(*bytes))->Whole_0,
                stack.wf(),
            decreases buf_view(*bytes).len(),
        {
            let ghost here = buf_view(*bytes);
            let ghost before = stack.entries();
            let etype: u16 = get_u16(bytes);
            let elen: usize = get_u16(bytes) as usize;
            let data: Bytes = bytes.split_to(elen).freeze();
            proof {
                let n = elen as int;
                assert(u16_at(here, 2) == n);
                assert(bytes_view(data) =~= here.subrange(4, 4 + n));
                assert(buf_view(*bytes) =~= here.subrange(4 + n, here.len() as int));
            }
            stack.extensions.push(Extension::new(etype, data));
            assert(stack.entries() =~= before.push((etype, bytes_view(data))));
            assert(all =~= stack.entries() + scan(buf_view(*bytes))->Whole_0);
        }
        assert(all =~= stack.entries());
        Ok(Some(stack))
    }
}

/// Where the extensions of a block end: short of its end when bytes are left over, `None`
/// when a length reaches beyond it.
fn block_end(b: &[u8]) -> (r: Option<usize>)
    ensures
        match r {
            None => scan(b@) is Short,
            Some(end) => {
                &&& end <= b@.len()
                &&& end == b@.len() <==> scan(b@) is Whole
                &&& end < b@.len() <==> scan(b@) is Trailing
            },
        },
{
    let data_len: usize = b.len();
    let mut offset: usize = 0;
    assert(b@.subrange(0, b@.len() as int) =~= b@);
    while data_len - offset >= 4
        invariant
            offset <= data_len,
            data_len == b@.len(),
            scan(b@) is Short <==> scan(b@.subrange(offset as int, b@.len() as int)) is Short,
            scan(b@) is Trailing <==> scan(b@.subrange(offset as int, b@.len() as int)) is Trailing,
        decreases data_len - offset,
    {
        let elen: usize = read_u16(b, offset + 2) as usize;
        let ghost here = b@.subrange(offset as int, b@.len() as int);
        assert(u16_at(here, 2) == elen);
        if elen > data_len - offset - 4 {
            return None;
        }
        assert(here.subrange(4 + elen, here.len() as int) =~= b@.subrange(
            offset + 4 + elen,
            b@.len() as int,
        ));
        offset = offset + 4 + elen;
    }
    Some(offset)
}

} // verus!
