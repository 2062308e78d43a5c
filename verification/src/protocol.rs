//! The git smart protocol over HTTP: services, acknowledgement modes, ref
//! commands and pkt-line framing.

use vstd::prelude::*;
use vstd::utf8::*;

use crate::errors::GitError;
use crate::pack::loose_ok;
use crate::pack::Pack;
use crate::object::Object;
use crate::text::{all_ascii, ascii_chars, hex_text, push_all, zero_pad, zero_padded_hex};

verus! {

/// How the server acknowledges the commits a client has.
#[derive(Debug, Clone, Copy, PartialEq, Eq, Structural)]
pub enum AckMode {
    MultiAck,
    MultiAckDetailed,
    Neither,
}

/// The two services of the smart protocol.
#[derive(Debug, PartialEq, Clone, Copy, Eq, Structural)]
pub enum ServiceType {
    UploadPack,
    ReceivePack,
}

/// The name of a service.
pub open spec fn service_name(t: ServiceType) -> Seq<char> {
    match t {
        ServiceType::UploadPack => "git-upload-pack"@,
        ServiceType::ReceivePack => "git-receive-pack"@,
    }
}

/// A name that names a service.
pub open spec fn known_service(name: Seq<char>) -> bool {
    name == "git-upload-pack"@ || name == "git-receive-pack"@
}

impl ServiceType {
    /// The service named `service_name`.
    pub fn new(service_name: &str) -> (res: Self)
        requires
            known_service(service_name@),
        ensures
            crate::protocol::service_name(res) == service_name@,
    {
        let name = service_name.to_owned();
        let upload = String::from_str("git-upload-pack");
        if name == upload {
            ServiceType::UploadPack
        } else {
            ServiceType::ReceivePack
        }
    }

    /// The name of the service.
    pub fn to_string(&self) -> (res: String)
        ensures
            res@ == service_name(*self),
    {
        match self {
            ServiceType::UploadPack => String::from_str("git-upload-pack"),
            ServiceType::ReceivePack => String::from_str("git-receive-pack"),
        }
    }
}

/// The command that starts the server: the port to listen on and the files
/// of its key and certificate, each optional.
#[derive(Debug)]
pub enum ServeCommand {
    Serve { port: Option<u16>, key_path: Option<String>, cert_path: Option<String> },
}

/// The side band that a packet of a side-band response travels on.
#[derive(Debug, Clone, Copy, PartialEq, Eq, Structural)]
pub enum SideBind {
    /// Band 1: pack file data.
    PackfileData,
    /// Band 2: progress messages for the client to show.
    ProgressInfo,
    /// Band 3: an error message.
    Error,
}

impl SideBind {
    /// The number of the band.
    pub fn value(&self) -> (res: u8)
        ensures
            res == match self {
                SideBind::PackfileData => 1u8,
                SideBind::ProgressInfo => 2u8,
                SideBind::Error => 3u8,
            },
    {
        match self {
            SideBind::PackfileData => 1,
            SideBind::ProgressInfo => 2,
            SideBind::Error => 3,
        }
    }
}

/// The state of a smart protocol session: its acknowledgement mode, the
/// refs it advertises and the service asked for.
#[derive(Debug)]
pub struct HttpProtocol {
    pub mode: AckMode,
    pub ref_list: Vec<String>,
    pub service_type: Option<ServiceType>,
}

impl Default for HttpProtocol {
    fn default() -> (res: Self)
        ensures
            res.mode == AckMode::MultiAckDetailed,
            res.ref_list@.len() == 0,
            res.service_type is None,
    {
        HttpProtocol { mode: AckMode::MultiAckDetailed, ref_list: Vec::new(), service_type: None }
    }
}

/// The capability name of an acknowledgement mode.
pub open spec fn ack_mode_name(mode: AckMode) -> Seq<char> {
    match mode {
        AckMode::MultiAck => "multi_ack"@,
        AckMode::MultiAckDetailed => "multi_ack_detailed"@,
        AckMode::Neither => ""@,
    }
}

impl HttpProtocol {
    /// A session in `multi_ack_detailed` mode, with no refs and no service.
    pub fn new() -> (res: Self)
        ensures
            res.mode == AckMode::MultiAckDetailed,
            res.ref_list@.len() == 0,
            res.service_type is None,
    {
        HttpProtocol { mode: AckMode::MultiAckDetailed, ref_list: Vec::new(), service_type: None }
    }

    /// Sets the service of the session to the one named `service_name`.
    pub fn service_type(&mut self, service_name: &str)
        requires
            known_service(service_name@),
        ensures
            final(self).service_type matches Some(t) && crate::protocol::service_name(t)
                == service_name@,
            final(self).mode == old(self).mode,
            final(self).ref_list == old(self).ref_list,
    {
        self.service_type = Some(ServiceType::new(service_name));
    }

    /// The capability name of the acknowledgement mode `mode`.
    pub fn value_in_ack_mode(mode: &AckMode) -> (res: &'static str)
        ensures
            res@ == ack_mode_name(*mode),
    {
        match mode {
            AckMode::MultiAck => "multi_ack",
            AckMode::MultiAckDetailed => "multi_ack_detailed",
            AckMode::Neither => "",
        }
    }
}

} // verus!

verus! {

/// The pkt-line of `payload`: its length plus four as four lowercase
/// hexadecimal digits (more when it does not fit in four), then the payload.
pub open spec fn pkt_line(payload: Seq<u8>) -> Seq<u8> {
    zero_pad(hex_text(payload.len() + 4), 4) + payload
}

/// The flush packet "0000" that ends a section.
pub open spec fn flush_pkt() -> Seq<u8> {
    seq![0x30u8, 0x30u8, 0x30u8, 0x30u8]
}

/// The value of hexadecimal digits in either case; `None` when one is not a
/// digit.
pub open spec fn hex_number(s: Seq<u8>) -> Option<nat>
    decreases s.len(),
{
    if s.len() == 0 {
        Some(0)
    } else {
        match (hex_number(s.drop_last()), crate::text::hex_value(s.last())) {
            (Some(a), Some(d)) => Some((a * 16 + d) as nat),
            _ => None,
        }
    }
}

/// The length that the four bytes `b` of a pkt-line announce, read as a
/// base-16 number with an optional leading '+'.
pub open spec fn pkt_len_value(b: Seq<u8>) -> Option<nat> {
    if b[0] == 0x2b {
        hex_number(b.subrange(1, 4))
    } else {
        hex_number(b)
    }
}

/// The pkt-line at the start of `rest` can be read: four length bytes that
/// parse, and either a flush packet or a length of at least four that `rest`
/// holds.
pub open spec fn pkt_readable(rest: Seq<u8>) -> bool {
    &&& rest.len() >= 4
    &&& pkt_len_value(rest.take(4)) matches Some(n) && (n == 0 || (4 <= n <= rest.len()))
}

/// Appends the pkt-line of `buf_str` to `pkt_line_stream`.
pub fn add_to_pkt_line(pkt_line_stream: &mut Vec<u8>, buf_str: String)
    requires
        encode_utf8(buf_str@).len() + 4 < 0x1_0000_0000_0000_0000,
    ensures
        final(pkt_line_stream)@ == old(pkt_line_stream)@ + pkt_line(encode_utf8(buf_str@)),
{
    let bytes = buf_str.as_str().as_bytes();
    let len = bytes.len() as u64 + 4;
    let prefix = zero_padded_hex(len, 4);
    push_all(pkt_line_stream, prefix.as_slice());
    push_all(pkt_line_stream, bytes);
}

/// The pkt-line of `payload`, as bytes.
pub fn pkt_line_bytes(payload: &[u8]) -> (res: Vec<u8>)
    requires
        payload@.len() + 4 < 0x1_0000_0000_0000_0000,
    ensures
        res@ == pkt_line(payload@),
{
    let len = payload.len() as u64 + 4;
    let mut out = zero_padded_hex(len, 4);
    push_all(&mut out, payload);
    out
}

/// The value of the digits of `s`, when they all are hexadecimal digits.
fn hex_number_exec(s: &[u8]) -> (res: Option<u64>)
    requires
        s@.len() <= 4,
    ensures
        match hex_number(s@) {
            Some(n) => res == Some(n as u64),
            None => res is None,
        },
        res matches Some(v) ==> v < 0x10000 && hex_number(s@) == Some(v as nat),
{
    let mut v: u64 = 0;
    let mut i: usize = 0;
    assert(s@.take(0) =~= Seq::<u8>::empty());
    while i < s.len()
        invariant
            i <= s@.len() <= 4,
            hex_number(s@.take(i as int)) == Some(v as nat),
            v < pow16(i as nat),
            pow16(i as nat) <= 0x10000,
        decreases s@.len() - i,
    {
        let c = s[i];
        assert(s@.take(i + 1).drop_last() =~= s@.take(i as int));
        assert(s@.take(i + 1).last() == c);
        let d = match crate::text::hex_char_value(c) {
            Some(d) => d,
            None => {
                proof {
                    lemma_hex_number_prefix_none(s@, i + 1);
                }
                return None;
            },
        };
        proof {
            reveal_with_fuel(pow16, 5);
            assert(pow16((i + 1) as nat) == 16 * pow16(i as nat));
        }
        v = v * 16 + d as u64;
        i = i + 1;
    }
    assert(s@.take(i as int) =~= s@);
    Some(v)
}

proof fn lemma_hex_number_prefix_none(s: Seq<u8>, k: int)
    requires
        0 <= k <= s.len(),
        hex_number(s.take(k)) is None,
    ensures
        hex_number(s) is None,
    decreases s.len(),
{
    if k < s.len() {
        assert(s.drop_last().take(k) =~= s.take(k));
        lemma_hex_number_prefix_none(s.drop_last(), k);
    } else {
        assert(s.take(k) =~= s);
    }
}

/// 16 to the `n`.
pub open spec fn pow16(n: nat) -> nat
    decreases n,
{
    if n == 0 {
        1
    } else {
        16 * pow16((n - 1) as nat)
    }
}

proof fn lemma_hex_number_digits(s: Seq<u8>, i: int)
    requires
        0 <= i < s.len(),
        crate::text::hex_value(s[i]) is None,
    ensures
        hex_number(s) is None,
    decreases s.len(),
{
    if i < s.len() - 1 {
        lemma_hex_number_digits(s.drop_last(), i);
    }
}

/// Reads the pkt-line at `*pos` of `bytes`: its announced length and its
/// payload; a flush packet gives length 0 and no payload.
pub fn read_pkt_line(bytes: &[u8], pos: &mut usize) -> (res: (usize, Vec<u8>))
    requires
        *old(pos) <= bytes@.len(),
        pkt_readable(bytes@.skip(*old(pos) as int)),
    ensures
        ({
            let rest = bytes@.skip(*old(pos) as int);
            let n = pkt_len_value(rest.take(4))->Some_0;
            &&& res.0 == n
            &&& n == 0 ==> res.1@.len() == 0 && *final(pos) == old(pos) + 4
            &&& n != 0 ==> res.1@ == rest.subrange(4, n as int) && *final(pos) == old(pos) + n
        }),
{
    let ghost rest = bytes@.skip(*pos as int);
    let start = *pos;
    let blen = bytes.len();
    assert(start + 4 <= blen);
    let head = vstd::slice::slice_subrange(bytes, start, start + 4);
    assert(head@ =~= rest.take(4));
    let n = if head[0] == 0x2b {
        let digits = vstd::slice::slice_subrange(head, 1, 4);
        assert(digits@ =~= rest.take(4).subrange(1, 4));
        hex_number_exec(digits)
    } else {
        hex_number_exec(head)
    };
    let n = match n {
        Some(n) => n as usize,
        None => {
            assert(false);
            return (0, Vec::new());
        },
    };
    assert(n as nat == pkt_len_value(rest.take(4))->Some_0);
    if n == 0 {
        *pos = start + 4;
        return (0, Vec::new());
    }
    let line = crate::text::copy_range(bytes, start + 4, start + n);
    assert(line@ =~= rest.subrange(4, n as int));
    *pos = start + n;
    (n, line)
}

proof fn lemma_hex_number_text(n: nat)
    ensures
        hex_number(hex_text(n)) == Some(n),
    decreases n,
{
    let t = hex_text(n);
    if n >= 16 {
        lemma_hex_number_text(n / 16);
        assert(t.drop_last() =~= hex_text(n / 16));
        let d = (n % 16) as u8;
        assert(t.last() == crate::text::hex_digit(d));
        assert(crate::text::hex_value(crate::text::hex_digit(d)) == Some(d));
        assert(n == (n / 16) * 16 + n % 16) by (nonlinear_arith);
        assert(hex_number(t) == Some(((n / 16) * 16 + d) as nat));
    } else {
        assert(t.drop_last() =~= Seq::<u8>::empty());
        assert(hex_number(t.drop_last()) == Some(0nat));
        assert(t.last() == crate::text::hex_digit(n as u8));
        assert(crate::text::hex_value(crate::text::hex_digit(n as u8)) == Some(n as u8));
        assert(hex_number(t) == Some((0 * 16 + (n as u8)) as nat));
    }
}

proof fn lemma_hex_number_zeros(k: nat, s: Seq<u8>)
    ensures
        hex_number(Seq::new(k, |i: int| 0x30u8) + s) == hex_number(s),
    decreases s.len(), k,
{
    let z = Seq::new(k, |i: int| 0x30u8);
    if s.len() == 0 {
        assert(z + s =~= z);
        if k > 0 {
            assert(z.drop_last() =~= Seq::new((k - 1) as nat, |i: int| 0x30u8));
            lemma_hex_number_zeros((k - 1) as nat, s);
            assert(Seq::new((k - 1) as nat, |i: int| 0x30u8) + s =~= z.drop_last());
        }
    } else {
        lemma_hex_number_zeros(k, s.drop_last());
        assert((z + s).drop_last() =~= z + s.drop_last());
        assert((z + s).last() == s.last());
    }
}

proof fn lemma_hex_text_len(n: nat)
    requires
        n < 0x10000,
    ensures
        hex_text(n).len() <= 4,
    decreases n,
{
    if n >= 16 {
        lemma_hex_text_len(n / 16);
        if n / 16 < 16 {
        } else if n / 256 < 16 {
            assert(hex_text(n / 16).len() == hex_text(n / 256).len() + 1);
        } else {
            assert(hex_text(n / 256).len() == hex_text(n / 4096).len() + 1);
        }
    }
}

/// A pkt-line is read back as its payload, when its length fits in four
/// digits: whatever follows it.
pub proof fn lemma_pkt_line_roundtrip(payload: Seq<u8>, rest: Seq<u8>)
    requires
        payload.len() + 4 <= 0xffff,
    ensures
        pkt_readable(pkt_line(payload) + rest),
        pkt_len_value((pkt_line(payload) + rest).take(4)) == Some((payload.len() + 4) as nat),
        (pkt_line(payload) + rest).subrange(4, payload.len() + 4int) == payload,
        (pkt_line(payload) + rest).skip(payload.len() + 4int) == rest,
{
    let n = (payload.len() + 4) as nat;
    let t = hex_text(n);
    lemma_hex_text_len(n);
    lemma_hex_number_text(n);
    crate::text::lemma_hex_text_ascii(n);
    let k = (4 - t.len()) as nat;
    let z = Seq::new(k, |i: int| 0x30u8);
    assert(zero_pad(t, 4) == z + t);
    lemma_hex_number_zeros(k, t);
    let all = pkt_line(payload) + rest;
    assert(all.take(4) =~= z + t);
    assert(all.subrange(4, payload.len() + 4int) =~= payload);
    assert(all.skip(payload.len() + 4int) =~= rest);
    if k == 0 {
        assert(t[0] != 0x2b) by {
            assert(crate::text::hex_value(t[0]) is Some) by {
                lemma_hex_digit_values(n);
            }
        }
    }
}

proof fn lemma_hex_digit_values(n: nat)
    ensures
        forall|i: int| 0 <= i < hex_text(n).len() ==> (#[trigger] crate::text::hex_value(hex_text(n)[i])) is Some,
    decreases n,
{
    if n >= 16 {
        lemma_hex_digit_values(n / 16);
        let d = (n % 16) as u8;
        assert(crate::text::hex_value(crate::text::hex_digit(d)) == Some(d));
        assert forall|i: int| 0 <= i < hex_text(n).len() implies (#[trigger] crate::text::hex_value(hex_text(n)[i])) is Some by {
            if i < hex_text(n / 16).len() {
                assert(hex_text(n)[i] == hex_text(n / 16)[i]);
            }
        }
    } else {
        assert(crate::text::hex_value(crate::text::hex_digit(n as u8)) == Some(n as u8));
    }
}

} // verus!

verus! {

/// The status of a ref update that succeeded.
pub open spec fn ok_status() -> Seq<char> {
    "ok"@
}

/// The status of a ref update that failed.
pub open spec fn failed_status() -> Seq<char> {
    "ng"@
}

/// One ref update that a push asks for: the ref, its old and new ids, and
/// how it went.
#[derive(Debug, Clone)]
pub struct RefCommand {
    pub ref_name: String,
    pub old_id: String,
    pub new_id: String,
    pub status: String,
    pub error_msg: String,
}

/// The ref updates of one push.
pub struct RefUpdateRequet {
    pub comand_list: Vec<RefCommand>,
}

/// The report line of a ref update: its status and ref, and the error
/// message of a failed one.
pub open spec fn status_line(c: RefCommand) -> Seq<char> {
    if c.status@ == ok_status() {
        c.status@ + " "@ + c.ref_name@
    } else {
        c.status@ + " "@ + c.ref_name@ + " "@ + c.error_msg@
    }
}

impl RefCommand {
    /// A ref update of `ref_name` from `old_id` to `new_id`, so far good.
    pub fn new(old_id: String, new_id: String, ref_name: String) -> (res: Self)
        ensures
            res.ref_name@ == ref_name@,
            res.old_id@ == old_id@,
            res.new_id@ == new_id@,
            res.status@ == ok_status(),
            res.error_msg@ == ""@,
    {
        RefCommand {
            ref_name,
            old_id,
            new_id,
            status: String::from_str("ok"),
            error_msg: String::from_str(""),
        }
    }

    /// Decodes the pack of the push; the update is marked good when it
    /// decodes, and failed with the error's message when it does not.
    pub fn unpack(&mut self, pack_data: &[u8], loose: &Vec<Object>) -> (res: Result<Pack, GitError>)
        requires
            loose_ok(loose@),
            !(crate::pack::pack_outcome(pack_data@, loose@) is Fault),
        ensures
            crate::pack::decode_result(pack_data@, loose@, res),
            res is Ok ==> final(self).status@ == ok_status() && final(self).error_msg == old(
                self,
            ).error_msg,
            res matches Err(e) ==> final(self).status@ == failed_status()
                && final(self).error_msg@ == crate::errors::error_text(e),
            final(self).ref_name == old(self).ref_name,
            final(self).old_id == old(self).old_id,
            final(self).new_id == old(self).new_id,
    {
        match Pack::decode(pack_data, loose) {
            Ok(decoded_pack) => {
                self.status = String::from_str("ok");
                Ok(decoded_pack)
            },
            Err(err) => {
                self.status = String::from_str("ng");
                self.error_msg = err.to_string();
                Err(err)
            },
        }
    }

    /// The report line of the update.
    pub fn get_status(&self) -> (res: String)
        ensures
            res@ == status_line(*self),
    {
        let ok = String::from_str("ok");
        let mut r = self.status.clone();
        r.append(" ");
        r.append(self.ref_name.as_str());
        if self.status == ok {
            r
        } else {
            r.append(" ");
            r.append(self.error_msg.as_str());
            r
        }
    }

    /// Marks the update failed, with `msg`.
    pub fn failed(&mut self, msg: String)
        ensures
            final(self).status@ == failed_status(),
            final(self).error_msg@ == msg@,
            final(self).ref_name == old(self).ref_name,
            final(self).old_id == old(self).old_id,
            final(self).new_id == old(self).new_id,
    {
        self.status = String::from_str("ng");
        self.error_msg = msg;
    }
}

/// The outcome of one ref update of a push: the ref, its old and new ids,
/// and "ok" or "ng".
#[derive(Debug, Clone)]
pub struct RefResult {
    pub ref_name: String,
    pub from_id: String,
    pub to_id: String,
    pub result: String,
}

impl RefResult {
    /// Marks the update good.
    pub fn get_result(&mut self)
        ensures
            final(self).result@ == ok_status(),
            final(self).ref_name == old(self).ref_name,
            final(self).from_id == old(self).from_id,
            final(self).to_id == old(self).to_id,
    {
        self.result = String::from_str("ok");
    }
}

} // verus!

verus! {

/// The pkt-lines of `lines`, one after the other.
pub open spec fn pkt_lines(lines: Seq<Seq<char>>) -> Seq<u8>
    decreases lines.len(),
{
    if lines.len() == 0 {
        Seq::empty()
    } else {
        pkt_lines(lines.drop_last()) + pkt_line(encode_utf8(lines.last()))
    }
}

/// Every line of `lines` fits a pkt-line length.
pub open spec fn lines_fit(lines: Seq<Seq<char>>) -> bool {
    forall|i: int| 0 <= i < lines.len() ==> encode_utf8(#[trigger] lines[i]).len() + 4 < 0x1_0000_0000_0000_0000
}

/// The view of a list of strings.
pub open spec fn strings_view(v: Seq<String>) -> Seq<Seq<char>> {
    v.map_values(|s: String| s@)
}

/// The reply that advertises the refs `refs` for `service`: a pkt-line
/// naming the service, a flush packet, a pkt-line for each ref, and a flush
/// packet.
pub open spec fn smart_reply(refs: Seq<Seq<char>>, service: Seq<char>) -> Seq<u8> {
    pkt_line(encode_utf8("# service="@ + service + "\n"@)) + flush_pkt() + pkt_lines(refs) + flush_pkt()
}

/// Appends the flush packet.
fn push_flush(out: &mut Vec<u8>)
    ensures
        final(out)@ == old(out)@ + flush_pkt(),
{
    out.push(0x30);
    out.push(0x30);
    out.push(0x30);
    out.push(0x30);
    assert(final(out)@ =~= old(out)@ + flush_pkt());
}

/// Appends the pkt-lines of `lines`.
fn push_pkt_lines(out: &mut Vec<u8>, lines: &Vec<String>)
    requires
        lines_fit(strings_view(lines@)),
    ensures
        final(out)@ == old(out)@ + pkt_lines(strings_view(lines@)),
{
    let ghost start = out@;
    let mut i: usize = 0;
    assert(strings_view(lines@).take(0) =~= Seq::<Seq<char>>::empty());
    while i < lines.len()
        invariant
            i <= lines@.len(),
            lines_fit(strings_view(lines@)),
            out@ == start + pkt_lines(strings_view(lines@).take(i as int)),
        decreases lines@.len() - i,
    {
        let ghost v = strings_view(lines@);
        assert(v[i as int] == lines@[i as int]@);
        assert(encode_utf8(v[i as int]).len() + 4 < 0x1_0000_0000_0000_0000);
        add_to_pkt_line(out, lines[i].clone());
        assert(v.take(i + 1).drop_last() =~= v.take(i as int));
        i = i + 1;
    }
    assert(strings_view(lines@).take(i as int) =~= strings_view(lines@));
}

/// The reply that advertises the refs `ref_list` for `service`.
pub fn build_smart_reply(ref_list: &Vec<String>, service: &str) -> (res: Vec<u8>)
    requires
        lines_fit(strings_view(ref_list@)),
        encode_utf8(service@).len() + 16 < 0x1_0000_0000_0000_0000,
    ensures
        res@ == smart_reply(strings_view(ref_list@), service@),
{
    let mut out: Vec<u8> = Vec::new();
    let mut first = String::from_str("# service=");
    first.append(service);
    first.append("\n");
    proof {
        reveal_strlit("# service=");
        reveal_strlit("\n");
        crate::text::lemma_encode_utf8_concat("# service="@ + service@, "\n"@);
        crate::text::lemma_encode_utf8_concat("# service="@, service@);
        assert(is_ascii_chars("# service="@));
        assert(is_ascii_chars("\n"@));
        is_ascii_chars_encode_utf8("# service="@);
        is_ascii_chars_encode_utf8("\n"@);
    }
    add_to_pkt_line(&mut out, first);
    push_flush(&mut out);
    push_pkt_lines(&mut out, ref_list);
    push_flush(&mut out);
    out
}

/// The capabilities the server announces with its first ref.
pub open spec fn cap_list() -> Seq<char> {
    "report-status report-status-v2 thin-pack side-band side-band-64k ofs-delta shallow deepen-since deepen-not deepen-relative multi_ack_detailed no-done object-format=sha1"@
}

/// The advertisement of the ref `name` at `object_id`: the first one also
/// carries the capabilities, after a NUL.
pub open spec fn ref_line(object_id: Seq<char>, name: Seq<char>, first: bool) -> Seq<char> {
    if first {
        object_id + " "@ + name + "\0"@ + cap_list() + "\n"@
    } else {
        object_id + " "@ + name + "\0"@ + "\n"@
    }
}

/// The advertisements of the ref files `entries` (each a file name and its
/// contents), appended after `start` advertisements: the name of each ref
/// is `name` followed by the names of all files up to it, and its id is the
/// contents without the final newline.
pub open spec fn ref_lines(entries: Seq<(Seq<char>, Seq<char>)>, start: nat, name: Seq<char>) -> Seq<Seq<char>>
    decreases entries.len(),
{
    if entries.len() == 0 {
        Seq::empty()
    } else {
        let n1 = name + entries[0].0;
        seq![ref_line(entries[0].1.drop_last(), n1, start == 0)] + ref_lines(
            entries.drop_first(),
            start + 1,
            n1,
        )
    }
}

/// The advertisement of refs into an empty list: one line per ref file;
/// the first names the first file's ref at the id its contents hold, then
/// carries the capabilities after a NUL; every later line carries nothing
/// after its NUL.
pub proof fn lemma_first_ref_carries_capabilities(entries: Seq<(Seq<char>, Seq<char>)>, name: Seq<char>)
    requires
        entries.len() > 0,
    ensures
        ref_lines(entries, 0, name).len() == entries.len(),
        ref_lines(entries, 0, name)[0] == entries[0].1.drop_last() + " "@ + name + entries[0].0 + "\0"@
            + cap_list() + "\n"@,
        forall|i: int|
            1 <= i < entries.len() ==> #[trigger] ref_lines(entries, 0, name)[i].len() >= 2 && ref_lines(
                entries,
                0,
                name,
            )[i].last() == '\n' && ref_lines(entries, 0, name)[i][ref_lines(entries, 0, name)[i].len()
                - 2] == '\0',
{
    lemma_ref_lines_later(entries.drop_first(), 1, name + entries[0].0);
    let rest = ref_lines(entries.drop_first(), 1, name + entries[0].0);
    let all = ref_lines(entries, 0, name);
    assert(all == seq![ref_line(entries[0].1.drop_last(), name + entries[0].0, true)] + rest);
    assert(ref_line(entries[0].1.drop_last(), name + entries[0].0, true) =~= entries[0].1.drop_last()
        + " "@ + name + entries[0].0 + "\0"@ + cap_list() + "\n"@);
    assert forall|i: int| 1 <= i < entries.len() implies #[trigger] all[i].len() >= 2 && all[i].last()
        == '\n' && all[i][all[i].len() - 2] == '\0' by {
        assert(all[i] == rest[i - 1]);
    }
}

/// Lines advertised after the first carry nothing after their NUL.
proof fn lemma_ref_lines_later(entries: Seq<(Seq<char>, Seq<char>)>, start: nat, name: Seq<char>)
    requires
        start > 0,
    ensures
        ref_lines(entries, start, name).len() == entries.len(),
        forall|i: int|
            0 <= i < entries.len() ==> #[trigger] ref_lines(entries, start, name)[i].len() >= 2
                && ref_lines(entries, start, name)[i].last() == '\n' && ref_lines(entries, start, name)[i][ref_lines(
                entries,
                start,
                name,
            )[i].len() - 2] == '\0',
    decreases entries.len(),
{
    if entries.len() > 0 {
        let n1 = name + entries[0].0;
        lemma_ref_lines_later(entries.drop_first(), start + 1, n1);
        let rest = ref_lines(entries.drop_first(), start + 1, n1);
        let all = ref_lines(entries, start, name);
        let l = ref_line(entries[0].1.drop_last(), n1, false);
        reveal_strlit("\0");
        reveal_strlit("\n");
        assert(l =~= entries[0].1.drop_last() + " "@ + n1 + "\0"@ + "\n"@);
        assert(all == seq![l] + rest);
        assert forall|i: int| 0 <= i < entries.len() implies #[trigger] all[i].len() >= 2 && all[i].last()
            == '\n' && all[i][all[i].len() - 2] == '\0' by {
            if i == 0 {
                assert(all[0] == l);
            } else {
                assert(all[i] == rest[i - 1]);
            }
        }
    }
}

/// The view of a list of pairs of strings.
pub open spec fn pairs_view(v: Seq<(String, String)>) -> Seq<(Seq<char>, Seq<char>)> {
    v.map_values(|p: (String, String)| (p.0@, p.1@))
}

/// The string of `content` without its last character, a newline.
fn strip_newline(content: &String) -> (res: String)
    requires
        content@.len() > 0,
        content@.last() == '\n',
    ensures
        res@ == content@.drop_last(),
{
    let bytes = content.as_str().as_bytes();
    let ghost c = content@;
    proof {
        reveal_strlit("\n");
        assert(c =~= c.drop_last() + "\n"@);
        crate::text::lemma_encode_utf8_concat(c.drop_last(), "\n"@);
        assert(is_ascii_chars("\n"@));
        is_ascii_chars_encode_utf8("\n"@);
        assert(encode_utf8("\n"@) =~= seq![0x0au8]);
        vstd::utf8::encode_utf8_valid_utf8(c.drop_last());
        vstd::utf8::encode_utf8_decode_utf8(c.drop_last());
    }
    assert(bytes@ == encode_utf8(c.drop_last()) + seq![0x0au8]);
    let body = crate::text::copy_range(bytes, 0, bytes.len() - 1);
    assert(body@ =~= encode_utf8(c.drop_last()));
    crate::git::utf8_string(body)
}

/// Builds the advertisement line of one ref.
fn ref_line_string(object_id: String, name: &String, first: bool) -> (res: String)
    ensures
        res@ == ref_line(object_id@, name@, first),
{
    let mut r = object_id;
    r.append(" ");
    r.append(name.as_str());
    r.append("\0");
    if first {
        r.append("report-status report-status-v2 thin-pack side-band side-band-64k ofs-delta shallow deepen-since deepen-not deepen-relative multi_ack_detailed no-done object-format=sha1");
    }
    r.append("\n");
    r
}

/// Appends to `ref_list` the advertisements of the ref files `entries`,
/// each a file name and its contents; the name of each ref grows from
/// `name` by the names of all files up to it.
pub fn build_ref_list(entries: &Vec<(String, String)>, ref_list: &mut Vec<String>, old_name: String)
    requires
        forall|i: int|
            0 <= i < entries@.len() ==> (#[trigger] entries@[i]).1@.len() > 0 && entries@[i].1@.last() == '\n',
    ensures
        strings_view(final(ref_list)@) == strings_view(old(ref_list)@) + ref_lines(
            pairs_view(entries@),
            old(ref_list)@.len(),
            old_name@,
        ),
{
    let ghost name0 = old_name@;
    let mut name = old_name;
    let ghost start = ref_list@.len();
    let ghost sv = strings_view(ref_list@);
    let ghost ev = pairs_view(entries@);
    let mut i: usize = 0;
    assert(ev.skip(0) =~= ev);
    assert(sv + Seq::<Seq<char>>::empty() =~= sv);
    while i < entries.len()
        invariant
            i <= entries@.len(),
            ev == pairs_view(entries@),
            ref_list@.len() == start + i,
            forall|k: int|
                0 <= k < entries@.len() ==> (#[trigger] entries@[k]).1@.len() > 0 && entries@[k].1@.last() == '\n',
            sv == strings_view(old(ref_list)@),
            start == old(ref_list)@.len(),
            name0 == old_name@,
            sv + ref_lines(ev, start, name0) == strings_view(ref_list@) + ref_lines(
                ev.skip(i as int),
                (start + i) as nat,
                name@,
            ),
        decreases entries@.len() - i,
    {
        let ghost before = strings_view(ref_list@);
        let ghost rest = ev.skip(i as int);
        let ghost n0 = name@;
        assert(rest[0] == ev[i as int]);
        assert(rest.drop_first() =~= ev.skip(i + 1));
        name.append(entries[i].0.as_str());
        let object_id = strip_newline(&entries[i].1);
        let line = ref_line_string(object_id, &name, ref_list.len() == 0);
        ref_list.push(line);
        assert(strings_view(ref_list@) =~= before.push(ref_line(ev[i as int].1.drop_last(), n0 + ev[i as int].0, start + i == 0)));
        assert(before + ref_lines(rest, (start + i) as nat, n0) =~= strings_view(ref_list@) + ref_lines(
            ev.skip(i + 1),
            (start + i + 1) as nat,
            name@,
        ));
        i = i + 1;
    }
    assert(ev.skip(i as int) =~= Seq::<(Seq<char>, Seq<char>)>::empty());
    assert(strings_view(ref_list@) + Seq::<Seq<char>>::empty() =~= strings_view(ref_list@));
}

} // verus!

verus! {

/// The command word "want".
pub open spec fn want_tag() -> Seq<u8> {
    seq![0x77u8, 0x61u8, 0x6eu8, 0x74u8]
}

/// The command word "have".
pub open spec fn have_tag() -> Seq<u8> {
    seq![0x68u8, 0x61u8, 0x76u8, 0x65u8]
}

/// The object ids that the pkt-lines of an upload request `b` want and
/// have, in order: the 40 bytes after "want " or "have " of each such line;
/// other lines are passed over, and the request ends with a flush packet.
/// `None` when a line cannot be read: it is cut short, shorter than its
/// command word, or its id is cut short or not UTF-8.
pub open spec fn upload_scan(b: Seq<u8>) -> Option<(Seq<Seq<u8>>, Seq<Seq<u8>>)>
    decreases b.len(),
{
    if !pkt_readable(b) {
        None
    } else {
        let n = pkt_len_value(b.take(4))->Some_0;
        if n == 0 {
            let rest = b.skip(4);
            if rest.len() == 0 {
                Some((Seq::empty(), Seq::empty()))
            } else {
                upload_scan(rest)
            }
        } else {
            let line = b.subrange(4, n as int);
            if line.len() < 4 {
                None
            } else {
                let tail = upload_scan(b.skip(n as int));
                let is_want = line.take(4) == want_tag();
                let is_have = line.take(4) == have_tag();
                if is_want || is_have {
                    if line.len() < 45 || !valid_utf8(line.subrange(5, 45)) {
                        None
                    } else {
                        match tail {
                            Some((w, h)) => if is_want {
                                Some((seq![line.subrange(5, 45)] + w, h))
                            } else {
                                Some((w, seq![line.subrange(5, 45)] + h))
                            },
                            None => None,
                        }
                    }
                } else {
                    tail
                }
            }
        }
    }
}

/// The strings that UTF-8 byte sequences decode to.
pub open spec fn decoded(ids: Seq<Seq<u8>>) -> Seq<Seq<char>> {
    ids.map_values(|b: Seq<u8>| decode_utf8(b))
}

/// `whole` is what scanning from the start gives, when `w0` and `h0` were
/// found before the rest was scanned as `rest`.
pub open spec fn scan_joins(
    whole: Option<(Seq<Seq<u8>>, Seq<Seq<u8>>)>,
    w0: Seq<Seq<u8>>,
    h0: Seq<Seq<u8>>,
    rest: Option<(Seq<Seq<u8>>, Seq<Seq<u8>>)>,
) -> bool {
    match rest {
        Some((w, h)) => whole == Some((w0 + w, h0 + h)),
        None => whole is None,
    }
}

/// Whether the bytes at `at` of `b` are `tag`.
fn tag_at(b: &[u8], at: usize, tag: &[u8]) -> (res: bool)
    requires
        at + tag@.len() <= b@.len(),
    ensures
        res == (b@.subrange(at as int, at + tag@.len()) == tag@),
{
    let mut i: usize = 0;
    let bl = b.len();
    while i < tag.len()
        invariant
            bl == b@.len(),
            at + tag@.len() <= bl,
            i <= tag@.len(),
            forall|k: int| 0 <= k < i ==> b@[at + k] == tag@[k],
        decreases tag@.len() - i,
    {
        if b[at + i] != tag[i] {
            assert(b@.subrange(at as int, at + tag@.len())[i as int] != tag@[i as int]);
            return false;
        }
        i = i + 1;
    }
    assert(b@.subrange(at as int, at + tag@.len()) =~= tag@);
    true
}

/// Reads the object ids that the upload request `chunk` wants and has,
/// appending them to `want` and `have`.
pub fn parse_upload_request(chunk: &[u8], want: &mut Vec<String>, have: &mut Vec<String>)
    requires
        upload_scan(chunk@) is Some,
    ensures
        ({
            let (w, h) = upload_scan(chunk@)->Some_0;
            &&& strings_view(final(want)@) == strings_view(old(want)@) + decoded(w)
            &&& strings_view(final(have)@) == strings_view(old(have)@) + decoded(h)
        }),
{
    let ghost whole = upload_scan(chunk@);
    let ghost mut w0: Seq<Seq<u8>> = Seq::empty();
    let ghost mut h0: Seq<Seq<u8>> = Seq::empty();
    let mut pos: usize = 0;
    assert(chunk@.skip(0) =~= chunk@);
    let want_word: [u8; 4] = [0x77, 0x61, 0x6e, 0x74];
    let have_word: [u8; 4] = [0x68, 0x61, 0x76, 0x65];
    assert(want_word@ =~= want_tag());
    assert(have_word@ =~= have_tag());
    assert(decoded(w0) =~= Seq::<Seq<char>>::empty());
    assert(strings_view(want@) + decoded(w0) =~= strings_view(want@));
    assert(strings_view(have@) + decoded(h0) =~= strings_view(have@));
    loop
        invariant_except_break
            scan_joins(whole, w0, h0, upload_scan(chunk@.skip(pos as int))),
        invariant
            whole == upload_scan(chunk@),
            whole is Some,
            want_word@ == want_tag(),
            have_word@ == have_tag(),
            pos <= chunk@.len(),
            strings_view(want@) == strings_view(old(want)@) + decoded(w0),
            strings_view(have@) == strings_view(old(have)@) + decoded(h0),
        ensures
            scan_joins(whole, w0, h0, Some((Seq::empty(), Seq::empty()))),
            strings_view(want@) == strings_view(old(want)@) + decoded(w0),
            strings_view(have@) == strings_view(old(have)@) + decoded(h0),
        decreases chunk@.len() - pos,
    {
        let ghost rest = chunk@.skip(pos as int);
        let ghost p0 = pos;
        assert(upload_scan(rest) is Some);
        let (take, line) = read_pkt_line(chunk, &mut pos);
        if take == 0 {
            assert(rest.skip(4) =~= chunk@.skip(pos as int));
            if pos == chunk.len() {
                assert(upload_scan(rest) == Some((Seq::<Seq<u8>>::empty(), Seq::<Seq<u8>>::empty())));
                break;
            }
            assert(upload_scan(rest) == upload_scan(rest.skip(4)));
            continue;
        }
        assert(rest.skip(take as int) =~= chunk@.skip(pos as int));
        assert(line@ == rest.subrange(4, take as int));
        assert(line@.len() >= 4);
        let is_want = tag_at(line.as_slice(), 0, &want_word);
        let is_have = tag_at(line.as_slice(), 0, &have_word);
        assert(line@.subrange(0, 4) =~= line@.take(4));
        if is_want || is_have {
            let id_bytes = crate::text::copy_range(line.as_slice(), 5, 45);
            let ghost idb = id_bytes@;
            assert(idb =~= line@.subrange(5, 45));
            let id = crate::git::utf8_string(id_bytes);
            if is_want {
                let ghost before = strings_view(want@);
                want.push(id);
                proof {
                    assert(strings_view(want@) =~= before.push(decode_utf8(idb)));
                    assert(decoded(w0.push(idb)) =~= decoded(w0).push(decode_utf8(idb)));
                    let t = upload_scan(chunk@.skip(pos as int));
                    assert(upload_scan(rest) == match t {
                        Some((w, h)) => Some((seq![idb] + w, h)),
                        None => None::<(Seq<Seq<u8>>, Seq<Seq<u8>>)>,
                    });
                    if let Some((w, h)) = t {
                        assert(w0.push(idb) + w =~= w0 + (seq![idb] + w));
                    }
                    w0 = w0.push(idb);
                }
            } else {
                let ghost before = strings_view(have@);
                have.push(id);
                proof {
                    assert(strings_view(have@) =~= before.push(decode_utf8(idb)));
                    assert(decoded(h0.push(idb)) =~= decoded(h0).push(decode_utf8(idb)));
                    let t = upload_scan(chunk@.skip(pos as int));
                    assert(upload_scan(rest) == match t {
                        Some((w, h)) => Some((w, seq![idb] + h)),
                        None => None::<(Seq<Seq<u8>>, Seq<Seq<u8>>)>,
                    });
                    if let Some((w, h)) = t {
                        assert(h0.push(idb) + h =~= h0 + (seq![idb] + h));
                    }
                    h0 = h0.push(idb);
                }
            }
        } else {
            assert(upload_scan(rest) == upload_scan(chunk@.skip(pos as int)));
        }
    }
    proof {
        assert(w0 + Seq::<Seq<u8>>::empty() =~= w0);
        assert(h0 + Seq::<Seq<u8>>::empty() =~= h0);
    }
}

} // verus!

verus! {

/// The acknowledgement of a common commit.
pub open spec fn ack_common(id: Seq<char>) -> Seq<char> {
    "ACK "@ + id + " common\n"@
}

/// The acknowledgements of the commits `ids`, one pkt-line each.
pub open spec fn ack_common_lines(ids: Seq<Seq<char>>) -> Seq<u8>
    decreases ids.len(),
{
    if ids.len() == 0 {
        Seq::empty()
    } else {
        ack_common_lines(ids.drop_last()) + pkt_line(encode_utf8(ack_common(ids.last())))
    }
}

/// The reply to an upload request that has the commits `have`: each is
/// acknowledged as common, the last as ready, then a final acknowledgement.
pub open spec fn upload_ack_reply(have: Seq<Seq<char>>) -> Seq<u8> {
    ack_common_lines(have) + pkt_line(encode_utf8("ACK "@ + have.last() + " ready\n"@)) + pkt_line(
        encode_utf8("ACK b2a1b00f1662679ac82272feaf8d08638e74f0eb \n"@),
    )
}

/// Each id fits a pkt-line with the words around it.
pub open spec fn ids_fit(ids: Seq<Seq<char>>) -> bool {
    forall|i: int| 0 <= i < ids.len() ==> encode_utf8(#[trigger] ids[i]).len() + 20 < 0x1_0000_0000_0000_0000
}

proof fn lemma_ascii_literal(s: Seq<char>)
    requires
        is_ascii_chars(s),
    ensures
        encode_utf8(s).len() == s.len(),
{
    is_ascii_chars_encode_utf8(s);
}

/// The string "ACK " followed by `id` and `word`.
fn ack_string(id: &String, word: &str) -> (res: String)
    ensures
        res@ == "ACK "@ + id@ + word@,
{
    let mut r = String::from_str("ACK ");
    r.append(id.as_str());
    r.append(word);
    r
}

/// Builds the reply to an upload request that has the commits `have`.
pub fn build_upload_ack(have: &Vec<String>) -> (res: Vec<u8>)
    requires
        have@.len() > 0,
        ids_fit(strings_view(have@)),
    ensures
        res@ == upload_ack_reply(strings_view(have@)),
{
    let ghost hv = strings_view(have@);
    proof {
        reveal_strlit("ACK ");
        reveal_strlit(" common\n");
        reveal_strlit(" ready\n");
        reveal_strlit("ACK b2a1b00f1662679ac82272feaf8d08638e74f0eb \n");
        lemma_ascii_literal("ACK "@);
        lemma_ascii_literal(" common\n"@);
        lemma_ascii_literal(" ready\n"@);
        lemma_ascii_literal("ACK b2a1b00f1662679ac82272feaf8d08638e74f0eb \n"@);
    }
    let mut out: Vec<u8> = Vec::new();
    let mut i: usize = 0;
    assert(hv.take(0) =~= Seq::<Seq<char>>::empty());
    while i < have.len()
        invariant
            i <= have@.len(),
            hv == strings_view(have@),
            ids_fit(hv),
            encode_utf8("ACK "@).len() == 4,
            encode_utf8(" common\n"@).len() == 8,
            out@ == ack_common_lines(hv.take(i as int)),
        decreases have@.len() - i,
    {
        let line = ack_string(&have[i], " common\n");
        proof {
            assert(hv[i as int] == have@[i as int]@);
            crate::text::lemma_encode_utf8_concat("ACK "@ + hv[i as int], " common\n"@);
            crate::text::lemma_encode_utf8_concat("ACK "@, hv[i as int]);
            assert(hv.take(i + 1).drop_last() =~= hv.take(i as int));
        }
        add_to_pkt_line(&mut out, line);
        i = i + 1;
    }
    assert(hv.take(i as int) =~= hv);
    let last = have.len() - 1;
    let ready = ack_string(&have[last], " ready\n");
    proof {
        assert(hv[last as int] == have@[last as int]@);
        crate::text::lemma_encode_utf8_concat("ACK "@ + hv.last(), " ready\n"@);
        crate::text::lemma_encode_utf8_concat("ACK "@, hv.last());
    }
    add_to_pkt_line(&mut out, ready);
    add_to_pkt_line(&mut out, String::from_str("ACK b2a1b00f1662679ac82272feaf8d08638e74f0eb \n"));
    out
}

/// The pieces of `s` between single spaces, empty ones included.
pub open spec fn split_spaces(s: Seq<u8>) -> Seq<Seq<u8>>
    decreases s.len(),
{
    match crate::utils::first_index_of(s, 0x20) {
        None => seq![s],
        Some(i) => if 0 <= i < s.len() {
            seq![s.take(i)] + split_spaces(s.skip(i + 1))
        } else {
            seq![s]
        },
    }
}

/// The pieces of `s` between single spaces.
fn split_spaces_exec(s: &[u8]) -> (res: Vec<Vec<u8>>)
    ensures
        res@.map_values(|v: Vec<u8>| v@) == split_spaces(s@),
{
    let mut out: Vec<Vec<u8>> = Vec::new();
    let mut start: usize = 0;
    let ghost mut done: Seq<Seq<u8>> = Seq::empty();
    assert(s@.skip(0) =~= s@);
    loop
        invariant
            start <= s@.len(),
            out@.map_values(|v: Vec<u8>| v@) == done,
            split_spaces(s@) == done + split_spaces(s@.skip(start as int)),
        decreases s@.len() - start,
    {
        let rest = vstd::slice::slice_subrange(s, start, s.len());
        assert(rest@ =~= s@.skip(start as int));
        match crate::text::find_byte(rest, 0x20) {
            None => {
                proof {
                    crate::utils::lemma_first_index_of(rest@, 0x20);
                }
                let piece = crate::text::copy_range(rest, 0, rest.len());
                assert(piece@ =~= rest@);
                let ghost before = out@;
                out.push(piece);
                proof {
                    assert(out@.map_values(|v: Vec<u8>| v@) =~= done.push(rest@));
                    assert(done + seq![rest@] =~= done.push(rest@));
                }
                return out;
            },
            Some(i) => {
                proof {
                    crate::utils::lemma_first_index_of(rest@, 0x20);
                }
                let piece = crate::text::copy_range(rest, 0, i);
                assert(piece@ =~= rest@.take(i as int));
                out.push(piece);
                proof {
                    assert(out@.map_values(|v: Vec<u8>| v@) =~= done.push(rest@.take(i as int)));
                    assert(rest@.skip(i + 1) =~= s@.skip(start + i + 1));
                    assert(done + split_spaces(rest@) =~= done.push(rest@.take(i as int)) + split_spaces(
                        s@.skip(start + i + 1),
                    ));
                    done = done.push(rest@.take(i as int));
                }
                start = start + i + 1;
            },
        }
    }
}

} // verus!

verus! {

/// The line of a receive request: the payload of its first pkt-line, empty
/// for a flush packet.
pub open spec fn first_line(chunk: Seq<u8>) -> Seq<u8> {
    let n = pkt_len_value(chunk.take(4))->Some_0;
    if n == 0 {
        Seq::empty()
    } else {
        chunk.subrange(4, n as int)
    }
}

/// Where the first pkt-line of a receive request ends.
pub open spec fn first_line_end(chunk: Seq<u8>) -> nat {
    let n = pkt_len_value(chunk.take(4))->Some_0;
    if n == 0 {
        4
    } else {
        n
    }
}

/// The first chunk of a receive request can be read: a pkt-line of valid
/// UTF-8 with at least three space-separated words, followed by four more
/// bytes.
pub open spec fn receive_readable(chunk: Seq<u8>) -> bool {
    &&& pkt_readable(chunk)
    &&& valid_utf8(first_line(chunk))
    &&& split_spaces(first_line(chunk)).len() >= 3
    &&& first_line_end(chunk) + 4 <= chunk.len()
}

/// Reads the ref update of the first chunk of a receive request: the old id,
/// the new id and the ref are the first three words of its first pkt-line,
/// and the update is marked good. When a flush packet follows the line, the
/// pack data starts after it, at the returned position.
pub fn parse_receive_command(chunk: &[u8]) -> (res: Result<(RefResult, Option<usize>), GitError>)
    requires
        receive_readable(chunk@),
    ensures
        ({
            let parts = split_spaces(first_line(chunk@));
            let end = first_line_end(chunk@);
            if valid_utf8(parts[0]) && valid_utf8(parts[1]) && valid_utf8(parts[2]) {
                res matches Ok((r, p)) && r.from_id@ == decode_utf8(parts[0]) && r.to_id@
                    == decode_utf8(parts[1]) && r.ref_name@ == decode_utf8(parts[2]) && r.result@
                    == ok_status() && p == (if chunk@.subrange(end as int, end + 4int) == flush_pkt() {
                    Some((end + 4) as usize)
                } else {
                    None
                })
            } else {
                res is Err
            }
        }),
{
    let mut pos: usize = 0;
    assert(chunk@.skip(0) =~= chunk@);
    let (take, line) = read_pkt_line(chunk, &mut pos);
    assert(line@ == first_line(chunk@));
    let parts = split_spaces_exec(line.as_slice());
    let ghost pv = parts@.map_values(|v: Vec<u8>| v@);
    assert(pv[0] == parts@[0]@ && pv[1] == parts@[1]@ && pv[2] == parts@[2]@);
    assert(parts@[0]@.subrange(0, parts@[0]@.len() as int) =~= parts@[0]@);
    assert(parts@[1]@.subrange(0, parts@[1]@.len() as int) =~= parts@[1]@);
    assert(parts@[2]@.subrange(0, parts@[2]@.len() as int) =~= parts@[2]@);
    let from_id = match crate::text::string_from_utf8(crate::text::copy_range(parts[0].as_slice(), 0, parts[0].len())) {
        Some(s) => s,
        None => {
            return Err(GitError::Other(String::from_str("ref command is not UTF-8")));
        },
    };
    let to_id = match crate::text::string_from_utf8(crate::text::copy_range(parts[1].as_slice(), 0, parts[1].len())) {
        Some(s) => s,
        None => {
            return Err(GitError::Other(String::from_str("ref command is not UTF-8")));
        },
    };
    let ref_name = match crate::text::string_from_utf8(crate::text::copy_range(parts[2].as_slice(), 0, parts[2].len())) {
        Some(s) => s,
        None => {
            return Err(GitError::Other(String::from_str("ref command is not UTF-8")));
        },
    };
    let mut ref_result = RefResult { ref_name, from_id, to_id, result: String::from_str("ng") };
    ref_result.get_result();
    let flush: [u8; 4] = [0x30, 0x30, 0x30, 0x30];
    assert(flush@ =~= flush_pkt());
    let cl = chunk.len();
    assert(pos + 4 <= cl);
    let next = if tag_at(chunk, pos, &flush) {
        Some(pos + 4)
    } else {
        None
    };
    Ok((ref_result, next))
}

/// The report line of a ref update outcome: its result and its ref.
pub open spec fn result_line(r: RefResult) -> Seq<char> {
    r.result@ + " "@ + r.ref_name@
}

/// The report lines of `results`, one pkt-line each.
pub open spec fn result_lines(results: Seq<RefResult>) -> Seq<u8>
    decreases results.len(),
{
    if results.len() == 0 {
        Seq::empty()
    } else {
        result_lines(results.drop_last()) + pkt_line(encode_utf8(result_line(results.last())))
    }
}

/// The reply to a receive request: the unpack status, the report line of
/// each ref update, and a flush packet.
pub open spec fn receive_reply(results: Seq<RefResult>) -> Seq<u8> {
    pkt_line(encode_utf8("unpack ok\n"@)) + result_lines(results) + flush_pkt()
}

/// Builds the reply to a receive request whose updates went as `results`.
pub fn build_receive_reply(results: &Vec<RefResult>) -> (res: Vec<u8>)
    requires
        forall|i: int|
            0 <= i < results@.len() ==> encode_utf8(#[trigger] results@[i].result@).len() + encode_utf8(
                results@[i].ref_name@,
            ).len() + 5 < 0x1_0000_0000_0000_0000,
    ensures
        res@ == receive_reply(results@),
{
    proof {
        reveal_strlit("unpack ok\n");
        reveal_strlit(" ");
        lemma_ascii_literal("unpack ok\n"@);
        lemma_ascii_literal(" "@);
    }
    let mut out: Vec<u8> = Vec::new();
    add_to_pkt_line(&mut out, String::from_str("unpack ok\n"));
    let ghost head = out@;
    let mut i: usize = 0;
    assert(results@.take(0) =~= Seq::<RefResult>::empty());
    while i < results.len()
        invariant
            i <= results@.len(),
            encode_utf8(" "@).len() == 1,
            forall|k: int|
                0 <= k < results@.len() ==> encode_utf8(#[trigger] results@[k].result@).len() + encode_utf8(
                    results@[k].ref_name@,
                ).len() + 5 < 0x1_0000_0000_0000_0000,
            out@ == head + result_lines(results@.take(i as int)),
        decreases results@.len() - i,
    {
        let mut line = results[i].result.clone();
        line.append(" ");
        line.append(results[i].ref_name.as_str());
        proof {
            let r = results@[i as int];
            crate::text::lemma_encode_utf8_concat(r.result@ + " "@, r.ref_name@);
            crate::text::lemma_encode_utf8_concat(r.result@, " "@);
            assert(results@.take(i + 1).drop_last() =~= results@.take(i as int));
        }
        add_to_pkt_line(&mut out, line);
        i = i + 1;
    }
    assert(results@.take(i as int) =~= results@);
    push_flush(&mut out);
    out
}

/// A packet of pack data on side band 1: its length plus five as at least
/// four hexadecimal digits, the band byte, then the data.
pub open spec fn side_band_data(data: Seq<u8>) -> Seq<u8> {
    zero_pad(hex_text(data.len() + 5), 4) + seq![1u8] + data
}

/// Frames `data` as a packet of pack data on side band 1.
pub fn side_band_packet(data: &[u8]) -> (res: Vec<u8>)
    requires
        data@.len() + 5 < 0x1_0000_0000_0000_0000,
    ensures
        res@ == side_band_data(data@),
{
    let mut out = zero_padded_hex(data.len() as u64 + 5, 4);
    out.push(SideBind::PackfileData.value());
    push_all(&mut out, data);
    out
}

/// Whether the pkt-line at `pos` of `bytes` can be read (see
/// `pkt_readable`).
pub fn pkt_readable_exec(bytes: &[u8], pos: usize) -> (res: bool)
    requires
        pos <= bytes@.len(),
    ensures
        res == pkt_readable(bytes@.skip(pos as int)),
{
    let n = bytes.len();
    if n - pos < 4 {
        return false;
    }
    let head = crate::text::copy_range(bytes, pos, pos + 4);
    let ghost rest = bytes@.skip(pos as int);
    assert(head@ =~= rest.take(4));
    let v = if head[0] == 0x2b {
        let tail = crate::text::copy_range(head.as_slice(), 1, 4);
        assert(tail@ =~= rest.take(4).subrange(1, 4));
        hex_number_exec(tail.as_slice())
    } else {
        hex_number_exec(head.as_slice())
    };
    assert(match v {
        Some(x) => pkt_len_value(rest.take(4)) == Some(x as nat),
        None => pkt_len_value(rest.take(4)) is None,
    });
    match v {
        None => {
            assert(pkt_len_value(rest.take(4)) is None);
            assert(!pkt_readable(rest));
            false
        },
        Some(v) => v == 0 || (4 <= v && v <= (n - pos) as u64),
    }
}

/// Whether the upload request `chunk` can be read (see `upload_scan`).
pub fn upload_request_readable(chunk: &[u8]) -> (res: bool)
    ensures
        res == (upload_scan(chunk@) is Some),
{
    let mut pos: usize = 0;
    assert(chunk@.skip(0) =~= chunk@);
    let want_word: [u8; 4] = [0x77, 0x61, 0x6e, 0x74];
    let have_word: [u8; 4] = [0x68, 0x61, 0x76, 0x65];
    assert(want_word@ =~= want_tag());
    assert(have_word@ =~= have_tag());
    loop
        invariant
            pos <= chunk@.len(),
            want_word@ == want_tag(),
            have_word@ == have_tag(),
            (upload_scan(chunk@) is Some) == (upload_scan(chunk@.skip(pos as int)) is Some),
        decreases chunk@.len() - pos,
    {
        let ghost rest = chunk@.skip(pos as int);
        if !pkt_readable_exec(chunk, pos) {
            return false;
        }
        let (take, line) = read_pkt_line(chunk, &mut pos);
        if take == 0 {
            assert(rest.skip(4) =~= chunk@.skip(pos as int));
            if pos == chunk.len() {
                return true;
            }
            continue;
        }
        assert(rest.skip(take as int) =~= chunk@.skip(pos as int));
        if line.len() < 4 {
            return false;
        }
        let is_want = tag_at(line.as_slice(), 0, &want_word);
        let is_have = tag_at(line.as_slice(), 0, &have_word);
        assert(line@.subrange(0, 4) =~= line@.take(4));
        if is_want || is_have {
            if line.len() < 45 {
                return false;
            }
            let id_bytes = crate::text::copy_range(line.as_slice(), 5, 45);
            if crate::text::string_from_utf8(id_bytes).is_none() {
                return false;
            }
        }
    }
}

/// Whether the first chunk of a receive request can be read (see
/// `receive_readable`).
pub fn receive_command_readable(chunk: &[u8]) -> (res: bool)
    ensures
        res == receive_readable(chunk@),
{
    assert(chunk@.skip(0) =~= chunk@);
    if !pkt_readable_exec(chunk, 0) {
        return false;
    }
    let mut pos: usize = 0;
    let (take, line) = read_pkt_line(chunk, &mut pos);
    assert(line@ == first_line(chunk@));
    assert(pos == first_line_end(chunk@));
    let ghost lv = line@;
    let words = split_spaces_exec(line.as_slice());
    assert(words@.map_values(|v: Vec<u8>| v@).len() == words@.len());
    if words.len() < 3 {
        return false;
    }
    if crate::text::string_from_utf8(line).is_none() {
        return false;
    }
    pos <= chunk.len() && chunk.len() - pos >= 4
}

} // verus!
