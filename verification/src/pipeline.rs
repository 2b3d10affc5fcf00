//! The whole pipeline, raw file bytes to final table: normalize, derive
//! port sets and payloads, join. Warnings of the three stages are
//! returned in stage order.

use vstd::prelude::*;

use crate::lines::{normalize, parse_file_data};
use crate::payload::{payloads_map_of, payloads_v, payloads_warns_of};
use crate::ports::{ports_map_of, ports_v, ports_warns_of};
use crate::table::{assemble_warns, joined, port_payload_map, table_lookup, table_sorted, tview};
use crate::warn::Warning;

verus! {

/// Runs the whole translation on file contents. The table's keys ascend
/// strictly; under each port set stands the payload of the last line that
/// derived both that port set and a payload.
pub fn build_table(data: &Vec<u8>) -> (r: (Vec<(Vec<u16>, Vec<u8>)>, Vec<Warning>))
    ensures
        table_sorted(tview(r.0@)),
        forall|q: Seq<u16>| #![all_triggers]
            table_lookup(tview(r.0@), q) == joined(
                ports_map_of(normalize(data@)),
                payloads_map_of(normalize(data@)),
                q,
            ),
        r.1@ == ports_warns_of(normalize(data@)) + payloads_warns_of(normalize(data@))
            + assemble_warns(ports_map_of(normalize(data@)), payloads_map_of(normalize(data@))),
{
    let fp_map = parse_file_data(data);
    let (pb_linenr, mut warns) = ports_v(&fp_map);
    let (payb_linenr, mut pay_warns) = payloads_v(&fp_map);
    let (table, mut join_warns) = port_payload_map(pb_linenr, payb_linenr);
    warns.append(&mut pay_warns);
    warns.append(&mut join_warns);
    (table, warns)
}

} // verus!
