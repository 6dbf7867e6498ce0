//! The dataset API: decodes a whole byte stream of framed records into the
//! structured benchmark entries, one per frame, in stream order.

use vstd::prelude::*;

use crate::error::DecodeError;
use crate::frame::decode_blocks;
use crate::frame::spec_frames;
use crate::record::JsonField;
use crate::record::JsonFieldView;
use crate::record::RawRecord;
use crate::record::RecordView;
use crate::record::field_views;
use crate::record::record_spec;

verus! {

/// What serde_json parses a data block to, where the block is a JSON array:
/// the array's elements in order, strings and integer-valued numbers kept,
/// every other element opaque; nothing, where the block is not a JSON array.
pub uninterp spec fn json_array_of(bytes: Seq<u8>) -> Option<Seq<JsonFieldView>>;

/// Relies on serde_json::from_slice: parsing is a function of the input
/// bytes alone.  The body converts serde_json's values one for one: a JSON
/// string to its UTF-8 bytes, a number to its integer value where it has
/// one, every other element to the opaque kind, a parse failure to `None`.
#[verifier::external_body]
fn parse_json_fields(bytes: &[u8]) -> (r: Option<Vec<JsonField>>)
    ensures
        r matches Some(v) ==> json_array_of(bytes@) == Some(field_views(v@)),
        (r is None) ==> json_array_of(bytes@) is None,
{
    let vals: Vec<serde_json::Value> = serde_json::from_slice(bytes).ok()?;
    Some(vals.into_iter().map(|v| match v {
        serde_json::Value::String(s) => JsonField::Text(s.into_bytes()),
        serde_json::Value::Number(n) => match n.as_i64() {
            Some(i) => JsonField::Int(i),
            None => JsonField::Other,
        },
        _ => JsonField::Other,
    }).collect())
}

/// The record one data block decodes to: its JSON array interpreted by
/// `record_spec`, or `MalformedRecord` where the block is not a JSON array.
pub open spec fn record_of_block(b: Seq<u8>) -> Result<RecordView, DecodeError> {
    match json_array_of(b) {
        None => Err(DecodeError::MalformedRecord),
        Some(fs) => record_spec(fs),
    }
}

/// The records of a sequence of data blocks, or the first error.
pub open spec fn records_of_blocks(bs: Seq<Seq<u8>>) -> Result<Seq<RecordView>, DecodeError>
    decreases bs.len(),
{
    if bs.len() == 0 {
        Ok(Seq::empty())
    } else {
        match record_of_block(bs[0]) {
            Err(e) => Err(e),
            Ok(m) => match records_of_blocks(bs.skip(1)) {
                Err(e) => Err(e),
                Ok(rest) => Ok(seq![m] + rest),
            },
        }
    }
}

/// What a whole byte stream decodes to: its frames' data blocks, each
/// interpreted as one record, or the error on which decoding halts.
pub open spec fn nasbench_of(s: Seq<u8>) -> Result<Seq<RecordView>, DecodeError> {
    match spec_frames(s) {
        Err(e) => Err(e),
        Ok(bs) => records_of_blocks(bs),
    }
}

/// A decoded dataset: every record of the stream, in order.
#[derive(Debug)]
pub struct NasBench {
    /// The records, one per frame of the stream.
    pub records: Vec<RawRecord>,
}

impl View for NasBench {
    type V = Seq<RecordView>;

    open spec fn view(&self) -> Seq<RecordView> {
        self.records.deep_view()
    }
}

impl NasBench {
    /// Decodes a whole record stream held in memory: every frame is checked
    /// and its data block interpreted as one benchmark record.
    pub fn from_tfrecord_bytes(bytes: &[u8]) -> (r: Result<NasBench, DecodeError>)
        ensures
            match nasbench_of(bytes@) {
                Ok(rs) => r matches Ok(nb) && nb@ == rs,
                Err(e) => r matches Err(e2) && e2 == e,
            },
    {
        let blocks = match decode_blocks(bytes) {
            Ok(bs) => bs,
            Err(e) => {
                return Err(e);
            },
        };
        let ghost bvs = blocks.deep_view();
        let mut records: Vec<RawRecord> = Vec::new();
        let mut idx: usize = 0;
        proof {
            assert(bvs.skip(0) =~= bvs);
            if let Ok(rest) = records_of_blocks(bvs) {
                assert(Seq::<RecordView>::empty() + rest =~= rest);
            }
            assert(records.deep_view() =~= Seq::<RecordView>::empty());
        }
        while idx < blocks.len()
            invariant
                idx <= blocks.len(),
                bvs == blocks.deep_view(),
                spec_frames(bytes@) == Ok::<Seq<Seq<u8>>, DecodeError>(bvs),
                records_of_blocks(bvs) == match records_of_blocks(bvs.skip(idx as int)) {
                    Err(e) => Err::<Seq<RecordView>, DecodeError>(e),
                    Ok(rest) => Ok(records.deep_view() + rest),
                },
            decreases blocks.len() - idx,
        {
            let ghost done = records.deep_view();
            let ghost rem = bvs.skip(idx as int);
            proof {
                assert(rem[0] == bvs[idx as int]);
                assert(rem.skip(1) =~= bvs.skip(idx as int + 1));
                assert(blocks@[idx as int].deep_view() =~= blocks@[idx as int]@);
                assert(bvs[idx as int] == blocks@[idx as int].deep_view());
            }
            let block = &blocks[idx];
            let fields = match parse_json_fields(block.as_slice()) {
                Some(fs) => fs,
                None => {
                    return Err(DecodeError::MalformedRecord);
                },
            };
            match RawRecord::from_json(fields) {
                Ok(rec) => {
                    let ghost m = rec@;
                    records.push(rec);
                    proof {
                        assert(records.deep_view() =~= done.push(m));
                        if let Ok(rest2) = records_of_blocks(bvs.skip(idx as int + 1)) {
                            assert(done + (seq![m] + rest2) =~= done.push(m) + rest2);
                        }
                    }
                },
                Err(e) => {
                    return Err(e);
                },
            }
            idx = idx + 1;
        }
        proof {
            assert(bvs.skip(blocks@.len() as int) =~= Seq::<Seq<u8>>::empty());
            assert(records_of_blocks(Seq::empty()) == Ok::<Seq<RecordView>, DecodeError>(
                Seq::empty()));
            if let Ok(rest) = records_of_blocks(bvs) {
                assert(records.deep_view() + Seq::<RecordView>::empty()
                    =~= records.deep_view());
            }
        }
        Ok(NasBench { records })
    }
}

} // verus!
