//! How a sender is created.

use crate::command::Quality;
use crate::sender::hub::bytes_views;
use crate::text::{chars_of, push_str, string_of};
use crate::xml::{escaped, push_escaped};
use vstd::prelude::*;

verus! {

/// First of the default ports.
pub const FIRST_PORT: u16 = 6400;

/// Last of the default ports.
pub const LAST_PORT: u16 = 6600;

/// Describes the sending product to receivers (`<OMTInfo .../>`).
#[derive(Clone, Debug, PartialEq, Eq)]
pub struct SenderInfo {
    /// Product name.
    pub product_name: String,
    /// Manufacturer.
    pub manufacturer: String,
    /// Version.
    pub version: String,
}

/// The text of sender information.
pub open spec fn info_text(product: Seq<char>, manufacturer: Seq<char>, version: Seq<char>) -> Seq<char> {
    "<OMTInfo ProductName=\""@ + escaped(product, true) + "\" Manufacturer=\""@ + escaped(manufacturer, true)
        + "\" Version=\""@ + escaped(version, true) + "\" />"@
}

impl SenderInfo {
    /// The text of this information.
    pub open spec fn text(&self) -> Seq<char> {
        info_text(self.product_name@, self.manufacturer@, self.version@)
    }

    /// The XML of this information. `&`, `<`, `>` and `"` are escaped.
    pub fn to_xml(&self) -> (r: String)
        ensures
            r@ == self.text(),
    {
        let a: Vec<char> = chars_of(self.product_name.as_str());
        let b: Vec<char> = chars_of(self.manufacturer.as_str());
        let c: Vec<char> = chars_of(self.version.as_str());
        let mut v: Vec<char> = Vec::new();
        push_str(&mut v, "<OMTInfo ProductName=\"");
        push_escaped(&mut v, a.as_slice(), true);
        push_str(&mut v, "\" Manufacturer=\"");
        push_escaped(&mut v, b.as_slice(), true);
        push_str(&mut v, "\" Version=\"");
        push_escaped(&mut v, c.as_slice(), true);
        push_str(&mut v, "\" />");
        assert(v@ =~= self.text());
        string_of(&v)
    }
}

/// How to create a sender.
#[derive(Clone, Debug, PartialEq, Eq)]
pub struct SenderConfig {
    /// Source name; the full name becomes `MACHINE (name)`.
    pub name: String,
    /// Encoder quality. `Default` follows receivers' suggestions.
    pub quality: Quality,
    /// Sent to every receiver on connect, if set.
    pub info: Option<SenderInfo>,
    /// Extra metadata strings sent to every receiver on connect.
    pub connection_metadata: Vec<Vec<u8>>,
    /// Announce over DNS-SD, or to `discovery_server` if one is set.
    pub announce: bool,
    /// Announce to this discovery server (`omt://host[:port]`) instead of over
    /// DNS-SD.
    pub discovery_server: Option<String>,
    /// First port to try.
    pub first_port: u16,
    /// Last port to try.
    pub last_port: u16,
}

impl SenderConfig {
    /// A sender called `name` with the defaults.
    pub fn new(name: &str) -> (r: Self)
        ensures
            r.name@ == name@,
            r.quality == Quality::Default,
            r.info is None,
            r.connection_metadata@ == Seq::<Vec<u8>>::empty(),
            r.announce,
            r.discovery_server is None,
            r.first_port == FIRST_PORT,
            r.last_port == LAST_PORT,
    {
        SenderConfig {
            name: name.to_string(),
            quality: Quality::Default,
            info: None,
            connection_metadata: Vec::new(),
            announce: true,
            discovery_server: None,
            first_port: FIRST_PORT,
            last_port: LAST_PORT,
        }
    }

    /// What every connection is sent first: the sender information, then the
    /// extra metadata.
    pub open spec fn first_messages(&self) -> Seq<Seq<u8>> {
        let more = bytes_views(self.connection_metadata@);
        match self.info {
            Some(i) => seq![vstd::utf8::encode_utf8(i.text())] + more,
            None => more,
        }
    }

    /// What every connection is sent first.
    pub fn on_connect(&self) -> (r: Vec<Vec<u8>>)
        ensures
            bytes_views(r@) == self.first_messages(),
    {
        let mut out: Vec<Vec<u8>> = Vec::new();
        match &self.info {
            Some(i) => {
                let xml: String = i.to_xml();
                let mut b: Vec<u8> = Vec::new();
                b.extend_from_slice(xml.as_str().as_bytes());
                assert(b@ =~= vstd::utf8::encode_utf8(i.text()));
                out.push(b);
            },
            None => {},
        }
        let ghost head = bytes_views(out@);
        let ghost more = bytes_views(self.connection_metadata@);
        let mut i: usize = 0;
        assert(head + more.take(0) =~= head);
        while i < self.connection_metadata.len()
            invariant
                i <= self.connection_metadata@.len(),
                more == bytes_views(self.connection_metadata@),
                bytes_views(out@) == head + more.take(i as int),
            decreases self.connection_metadata@.len() - i,
        {
            let ghost before = out@;
            let mut b: Vec<u8> = Vec::new();
            b.extend_from_slice(self.connection_metadata[i].as_slice());
            assert(b@ =~= more[i as int]);
            out.push(b);
            proof {
                assert(bytes_views(out@) =~= bytes_views(before).push(b@));
                assert(more.take(i + 1) =~= more.take(i as int).push(more[i as int]));
                assert(bytes_views(out@) =~= head + more.take(i + 1));
            }
            i = i + 1;
        }
        proof {
            assert(more.take(i as int) =~= more);
            assert(bytes_views(out@) =~= self.first_messages());
        }
        out
    }
}

/// The port to try first.
pub fn first_port(first: u16, last: u16) -> (r: Option<u16>)
    ensures
        r == (if first <= last {
            Some(first)
        } else {
            None
        }),
{
    if first <= last {
        Some(first)
    } else {
        None
    }
}

/// The port to try after one that could not be had: the next one of the range,
/// if the one before was in use. Any other fault ends the search.
pub fn next_port(port: u16, last: u16, in_use: bool) -> (r: Option<u16>)
    ensures
        r == (if in_use && port < last {
            Some((port + 1) as u16)
        } else {
            None
        }),
{
    if in_use && port < last {
        Some(port + 1)
    } else {
        None
    }
}

} // verus!
