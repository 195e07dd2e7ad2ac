//! Name resolution over HTTPS: the question and the answer.

use crate::addr;
use crate::addr::Ipv4Addr;
use crate::text;
use vstd::prelude::*;

verus! {

/// How long a question may take, in seconds.
pub const DNS_TIMEOUT_SECS: u64 = 10;

/// The host that the question is addressed to.
pub const DNS_HOST: &'static str = "dns.google";

/// What the question says of the program that asks it.
pub const USER_AGENT: &'static str =
    "Mozilla/5.0 (X11; Linux x86_64) AppleWebKit/537.36 (KHTML, like Gecko) Chrome/131.0.0.0 Safari/537.36";

/// The type of a record that holds an IPv4 address.
pub const RECORD_A: u32 = 1;

/// One record of a response.
pub struct DnsAnswer {
    pub record_type: u32,
    pub data: String,
}

/// The response to a question.
pub struct DnsResponse {
    pub status: u32,
    pub answer: Vec<DnsAnswer>,
}

/// What a record says.
#[verifier::ext_equal]
pub struct AnswerView {
    pub record_type: u32,
    pub data: Seq<char>,
}

/// What a response says.
#[verifier::ext_equal]
pub struct ResponseView {
    pub status: u32,
    pub answer: Seq<AnswerView>,
}

impl View for DnsAnswer {
    type V = AnswerView;

    open spec fn view(&self) -> AnswerView {
        AnswerView { record_type: self.record_type, data: self.data@ }
    }
}

impl View for DnsResponse {
    type V = ResponseView;

    open spec fn view(&self) -> ResponseView {
        ResponseView {
            status: self.status,
            answer: self.answer@.map_values(|a: DnsAnswer| a@),
        }
    }
}

/// The first address record, from record `from` on.
pub open spec fn first_address_record(answer: Seq<AnswerView>, from: int) -> Option<AnswerView>
    decreases answer.len() - from,
{
    if from < 0 || from >= answer.len() {
        None
    } else if answer[from].record_type == RECORD_A {
        Some(answer[from])
    } else {
        first_address_record(answer, from + 1)
    }
}

/// The address that a response gives: that of its first address record, when the response
/// reports no error and the record holds an address.
pub open spec fn address_in(response: ResponseView) -> Option<Ipv4Addr> {
    if response.status != 0 {
        None
    } else {
        match first_address_record(response.answer, 0) {
            Some(record) => addr::ip_of(record.data),
            None => None,
        }
    }
}

/// Where the address of a host is asked for.
pub open spec fn query_url(hostname: Seq<char>) -> Seq<char> {
    "https://8.8.8.8/resolve?name="@ + hostname + "&type=A"@
}

/// The response reports no error, and its first record of type 1 is record `k`, which holds the text.
pub open spec fn holds_at(response: ResponseView, k: int, data: Seq<char>) -> bool {
    &&& response.status == 0
    &&& 0 <= k < response.answer.len()
    &&& response.answer[k].record_type == 1
    &&& response.answer[k].data == data
    &&& forall|j: int| 0 <= j < k ==> (#[trigger] response.answer[j]).record_type != 1
}

/// The response gives the address: its first record of type 1 holds the dotted notation.
pub open spec fn gives(response: ResponseView, ip: Ipv4Addr) -> bool {
    exists|k: int| holds_at(response, k, addr::ip_text(ip))
}

proof fn lemma_first_record(answer: Seq<AnswerView>, from: int, k: int)
    requires
        0 <= from <= k < answer.len(),
        answer[k].record_type == 1,
        forall|j: int| 0 <= j < k ==> (#[trigger] answer[j]).record_type != 1,
    ensures
        first_address_record(answer, from) == Some(answer[k]),
    decreases k - from,
{
    if from < k {
        assert(answer[from].record_type != 1);
        lemma_first_record(answer, from + 1, k);
    }
}

proof fn lemma_no_record(answer: Seq<AnswerView>, from: int)
    requires
        0 <= from <= answer.len(),
    ensures
        match first_address_record(answer, from) {
            Some(record) => exists|k: int|
                from <= k < answer.len() && (#[trigger] answer[k]) == record && record.record_type
                    == 1 && forall|j: int|
                    from <= j < k ==> (#[trigger] answer[j]).record_type != 1,
            None => forall|j: int|
                from <= j < answer.len() ==> (#[trigger] answer[j]).record_type != 1,
        },
    decreases answer.len() - from,
{
    if from < answer.len() {
        if answer[from].record_type == RECORD_A {
            assert(answer[from] == answer[from]);
        } else {
            lemma_no_record(answer, from + 1);
        }
    }
}

/// The address that is taken from a response is the one that its first record of type 1 holds, every
/// address alike; a response that reports an error, or whose first such record holds no address, or
/// that has none, gives none.
pub proof fn law_address(response: ResponseView, ip: Ipv4Addr)
    ensures
        address_in(response) == Some(ip) <==> gives(response, ip),
        response.status != 0 ==> address_in(response) is None,
        (forall|j: int|
            0 <= j < response.answer.len() ==> (#[trigger] response.answer[j]).record_type != 1)
            ==> address_in(response) is None,
{
    let answer = response.answer;
    lemma_no_record(answer, 0);
    if gives(response, ip) {
        let k = choose|k: int| holds_at(response, k, addr::ip_text(ip));
        lemma_first_record(answer, 0, k);
        addr::law_ip_round_trip(ip);
    }
    if address_in(response) == Some(ip) {
        let record = first_address_record(answer, 0)->0;
        let k = choose|k: int|
            0 <= k < answer.len() && (#[trigger] answer[k]) == record && record.record_type == 1
                && forall|j: int| 0 <= j < k ==> (#[trigger] answer[j]).record_type != 1;
        addr::law_ip_notation(ip, record.data);
        assert(holds_at(response, k, addr::ip_text(ip)));
    }
}

/// The question for a host holds its name as it is, between the same words for every host.
pub proof fn law_question(a: Seq<char>, b: Seq<char>)
    ensures
        query_url(a) == "https://8.8.8.8/resolve?name="@ + a + "&type=A"@,
        query_url(a) == query_url(b) ==> a == b,
{
    let head = "https://8.8.8.8/resolve?name="@;
    let tail = "&type=A"@;
    if query_url(a) == query_url(b) {
        assert((head + a + tail).len() == (head + b + tail).len());
        assert(query_url(a).subrange(head.len() as int, (head.len() + a.len()) as int) =~= a);
        assert(query_url(b).subrange(head.len() as int, (head.len() + b.len()) as int) =~= b);
    }
}

/// Where the address of `hostname` is asked for.
pub fn resolve_url(hostname: &str) -> (out: String)
    ensures
        out@ == query_url(hostname@),
{
    let mut chars: Vec<char> = Vec::new();
    text::append_text(&mut chars, "https://8.8.8.8/resolve?name=");
    text::append_text(&mut chars, hostname);
    text::append_text(&mut chars, "&type=A");
    proof {
        assert(chars@ =~= query_url(hostname@));
    }
    text::string_of(chars.as_slice())
}

/// The address that a response gives.
pub fn resolve_dns(response: &DnsResponse) -> (out: Option<Ipv4Addr>)
    ensures
        out == address_in(response@),
{
    if response.status != 0 {
        return None;
    }
    for i in 0..response.answer.len()
        invariant
            first_address_record(response@.answer, 0) == first_address_record(
                response@.answer,
                i as int,
            ),
            response@.answer.len() == response.answer@.len(),
            response.status == 0,
    {
        proof {
            assert(response@.answer[i as int] == response.answer@[i as int]@);
        }
        if response.answer[i].record_type == RECORD_A {
            let data = text::chars_of(response.answer[i].data.as_str());
            return Ipv4Addr::parse(data.as_slice());
        }
    }
    None
}

} // verus!
