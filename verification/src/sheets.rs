//! Sheets: loading rule statements into a filter from any of the three
//! artifact forms (plain source, the text encoding, the binary encoding).

use vstd::prelude::*;
use vstd::string::StrSliceExecFns;
use vstd::utf8::encode_utf8;
use crate::filter::{Filter, wf_items, scan_spec, parse_rule_spec};
use crate::codec::{dec_items_t, dec_items_b, decode_items_text, decode_items_binary};

verus! {

/// The forms a sheet can arrive in.
#[derive(Debug, Clone, Copy)]
pub enum SheetFormat {
    /// Not a recognized sheet form.
    Invalid,
    /// Plain, unparsed rule source.
    Plain,
    /// The self-describing text artifact encoding.
    Json,
    /// The compact binary artifact encoding.
    Binary,
}

impl Filter {
    /// Extend this filter with the statements of `data`, read in the given
    /// form; reports whether the data was understood. A failed load adds no
    /// rules and never corrupts the rules already loaded.
    pub fn extend_with(&mut self, data: &str, format: SheetFormat) -> (loaded: bool)
        requires
            old(self).wf(),
        ensures
            final(self).wf(),
            match format {
                SheetFormat::Plain => match parse_rule_spec(scan_spec(data@, false)) {
                    Some(ivs) => loaded && final(self)@ == old(self)@ + wf_items(ivs),
                    None => !loaded && final(self)@ == old(self)@,
                },
                SheetFormat::Json => match dec_items_t(data@) {
                    Some((ivs, rem)) => loaded && final(self)@ == old(self)@ + wf_items(ivs),
                    None => !loaded && final(self)@ == old(self)@,
                },
                SheetFormat::Binary => match dec_items_b(encode_utf8(data@)) {
                    Some((ivs, rem)) => loaded && final(self)@ == old(self)@ + wf_items(ivs),
                    None => !loaded && final(self)@ == old(self)@,
                },
                SheetFormat::Invalid => !loaded && final(self)@ == old(self)@,
            },
    {
        match format {
            SheetFormat::Plain => self.extend_parsed(data),
            SheetFormat::Json => {
                match decode_items_text(data) {
                    Some(items) => {
                        self.push_wf_items(items);
                        true
                    },
                    None => false,
                }
            },
            SheetFormat::Binary => {
                let bytes = data.as_bytes_vec();
                match decode_items_binary(&bytes) {
                    Some(items) => {
                        self.push_wf_items(items);
                        true
                    },
                    None => false,
                }
            },
            SheetFormat::Invalid => false,
        }
    }
}

} // verus!
