//! Account records: the two payload shapes, how a payload is decoded into one
//! of them, and the fields that comparisons read.

use vstd::prelude::*;
use crate::json::{
    JsonValue, json_parse, parse_json, lookup, as_string, as_opt_string, as_i64, as_i32,
    as_opt_i64, find_member, member_string, member_opt_string, member_i64, member_i32,
    member_opt_i64,
};

verus! {

/// A typed field of an account state: its declared type and its value, both
/// kept as text.
#[derive(Debug)]
pub struct DataValue {
    pub data_type: String,
    pub value: String,
}

/// The nested account state of a regular record.
#[derive(Debug)]
pub struct Account {
    pub balance: DataValue,
    pub code_hash: DataValue,
    pub nonce: DataValue,
    pub storage_root: DataValue,
}

/// The two shapes an account payload can take.
#[derive(Debug)]
pub enum AccountData {
    Regular {
        account: Account,
        account_type: i32,
        eth_address: Option<String>,
        hash: String,
        timestamp: i64,
    },
    Special {
        account_type: i32,
        hash: String,
        id: String,
        name: Option<String>,
        nonce: Option<i64>,
        timestamp: i64,
        other_fields: Vec<(String, JsonValue)>,
    },
}

/// One decoded account, with the source it came from (`None` for the
/// canonical source).
#[derive(Debug)]
pub struct AccountEntry {
    pub account_id: String,
    pub data: AccountData,
    pub node_path: Option<String>,
}

/// Why a payload was not decoded.
#[derive(Debug)]
pub enum DecodeCause {
    /// The payload is not a JSON document; serde_json's message.
    InvalidJson(String),
    /// The payload is JSON but matches neither record shape.
    UnknownShape,
}

/// A payload that was dropped, with the account it was stored under.
#[derive(Debug)]
pub struct DecodeError {
    pub account_id: String,
    pub cause: DecodeCause,
}

pub open spec fn digit_char(d: nat) -> char {
    if d == 0 { '0' } else if d == 1 { '1' } else if d == 2 { '2' } else if d == 3 { '3' }
    else if d == 4 { '4' } else if d == 5 { '5' } else if d == 6 { '6' } else if d == 7 { '7' }
    else if d == 8 { '8' } else { '9' }
}

/// Base-ten digits of `n`, without leading zeros.
pub open spec fn digits(n: nat) -> Seq<char>
    decreases n,
{
    if n < 10 {
        seq![digit_char(n)]
    } else {
        digits(n / 10).push(digit_char(n % 10))
    }
}

/// Decimal text of an integer, with a leading minus sign when negative.
pub open spec fn decimal(n: int) -> Seq<char> {
    if n < 0 {
        seq!['-'] + digits((-n) as nat)
    } else {
        digits(n as nat)
    }
}

/// Relies on `i64`'s `Display` (through `to_string`): base ten, no leading
/// zeros, a minus sign before a negative value.
#[verifier::external_body]
fn i64_to_decimal(n: i64) -> (r: String)
    ensures
        r@ == decimal(n as int),
{
    n.to_string()
}

/// The placeholder shown where a field has no value.
pub open spec fn not_available() -> Seq<char> {
    "N/A"@
}

/// The balance a record carries: only regular records have one.
pub open spec fn balance_of(d: AccountData) -> Option<Seq<char>> {
    match d {
        AccountData::Regular { account, .. } => Some(account.balance.value@),
        AccountData::Special { .. } => None,
    }
}

/// The nonce of a record as text: a regular record's nonce value, a special
/// record's integer nonce in decimal, or the placeholder when it has none.
pub open spec fn nonce_of(d: AccountData) -> Seq<char> {
    match d {
        AccountData::Regular { account, .. } => account.nonce.value@,
        AccountData::Special { nonce, .. } => match nonce {
            Some(n) => decimal(n as int),
            None => not_available(),
        },
    }
}

impl AccountEntry {
    /// The balance, for a regular record.
    pub fn get_balance(&self) -> (r: Option<&str>)
        ensures
            match r {
                Some(s) => balance_of(self.data) == Some(s@),
                None => balance_of(self.data) is None,
            },
    {
        match &self.data {
            AccountData::Regular { account, .. } => Some(account.balance.value.as_str()),
            AccountData::Special { .. } => None,
        }
    }

    /// The nonce as text; never fails.
    pub fn get_nonce(&self) -> (r: String)
        ensures
            r@ == nonce_of(self.data),
    {
        match &self.data {
            AccountData::Regular { account, .. } => account.nonce.value.clone(),
            AccountData::Special { nonce, .. } => match nonce {
                Some(n) => i64_to_decimal(*n),
                None => String::from_str("N/A"),
            },
        }
    }

    /// Whether the record takes part in comparisons: regular records only.
    pub fn is_comparable(&self) -> (r: bool)
        ensures
            r == (self.data is Regular),
    {
        matches!(self.data, AccountData::Regular { .. })
    }
}

/// A `{dataType, value}` pair.
pub open spec fn data_value_of(o: Option<JsonValue>) -> Option<DataValue> {
    match o {
        Some(JsonValue::Object(f)) => {
            let t = as_string(lookup(f@, "dataType"@));
            let v = as_string(lookup(f@, "value"@));
            if t is Some && v is Some {
                Some(DataValue { data_type: t->0, value: v->0 })
            } else {
                None
            }
        },
        _ => None,
    }
}

/// The nested account state with its four typed fields.
pub open spec fn account_of(o: Option<JsonValue>) -> Option<Account> {
    match o {
        Some(JsonValue::Object(f)) => {
            let b = data_value_of(lookup(f@, "balance"@));
            let c = data_value_of(lookup(f@, "codeHash"@));
            let n = data_value_of(lookup(f@, "nonce"@));
            let s = data_value_of(lookup(f@, "storageRoot"@));
            if b is Some && c is Some && n is Some && s is Some {
                Some(Account { balance: b->0, code_hash: c->0, nonce: n->0, storage_root: s->0 })
            } else {
                None
            }
        },
        _ => None,
    }
}

/// The regular shape: an object with the nested account state.
pub open spec fn regular_of(v: JsonValue) -> Option<AccountData> {
    match v {
        JsonValue::Object(f) => {
            let a = account_of(lookup(f@, "account"@));
            let t = as_i32(lookup(f@, "accountType"@));
            let e = as_opt_string(lookup(f@, "ethAddress"@));
            let h = as_string(lookup(f@, "hash"@));
            let ts = as_i64(lookup(f@, "timestamp"@));
            if a is Some && t is Some && e is Some && h is Some && ts is Some {
                Some(AccountData::Regular {
                    account: a->0,
                    account_type: t->0,
                    eth_address: e->0,
                    hash: h->0,
                    timestamp: ts->0,
                })
            } else {
                None
            }
        },
        _ => None,
    }
}

/// The member names that the special shape reads.
pub open spec fn is_special_key(k: Seq<char>) -> bool {
    k == "accountType"@ || k == "hash"@ || k == "id"@ || k == "name"@ || k == "nonce"@
        || k == "timestamp"@
}

/// The members of a special record that it does not read, in order.
pub open spec fn other_members(f: Seq<(String, JsonValue)>) -> Seq<(String, JsonValue)>
    decreases f.len(),
{
    if f.len() == 0 {
        f
    } else if is_special_key(f.last().0@) {
        other_members(f.drop_last())
    } else {
        other_members(f.drop_last()).push(f.last())
    }
}

/// The special shape: an object with the special fields. Gives the values
/// read, then the members that are kept without being read.
pub open spec fn special_of(v: JsonValue) -> Option<
    (i32, String, String, Option<String>, Option<i64>, i64, Seq<(String, JsonValue)>),
> {
    match v {
        JsonValue::Object(f) => {
            let t = as_i32(lookup(f@, "accountType"@));
            let h = as_string(lookup(f@, "hash"@));
            let i = as_string(lookup(f@, "id"@));
            let n = as_opt_string(lookup(f@, "name"@));
            let c = as_opt_i64(lookup(f@, "nonce"@));
            let ts = as_i64(lookup(f@, "timestamp"@));
            if t is Some && h is Some && i is Some && n is Some && c is Some && ts is Some {
                Some((t->0, h->0, i->0, n->0, c->0, ts->0, other_members(f@)))
            } else {
                None
            }
        },
        _ => None,
    }
}

/// Whether `d` is the special record that `special_of` read.
pub open spec fn is_special_record(
    s: (i32, String, String, Option<String>, Option<i64>, i64, Seq<(String, JsonValue)>),
    d: AccountData,
) -> bool {
    match d {
        AccountData::Special { account_type, hash, id, name, nonce, timestamp, other_fields } =>
            account_type == s.0 && hash == s.1 && id == s.2 && name == s.3 && nonce == s.4
                && timestamp == s.5 && other_fields@ == s.6,
        AccountData::Regular { .. } => false,
    }
}

/// Whether `r` is what decoding `v` gives: the regular shape when it fits,
/// else the special shape when it fits, else nothing.
pub open spec fn decodes_to(v: JsonValue, r: Option<AccountData>) -> bool {
    if regular_of(v) is Some {
        r == regular_of(v)
    } else {
        match special_of(v) {
            Some(s) => r is Some && is_special_record(s, r->0),
            None => r is None,
        }
    }
}

fn data_value_member(fields: &Vec<(String, JsonValue)>, key: &String) -> (r: Option<DataValue>)
    ensures
        r == data_value_of(lookup(fields@, key@)),
{
    match find_member(fields, key) {
        Some(i) => match &fields[i].1 {
            JsonValue::Object(f) => {
                let t = member_string(f, &String::from_str("dataType"));
                let v = member_string(f, &String::from_str("value"));
                match (t, v) {
                    (Some(t), Some(v)) => Some(DataValue { data_type: t, value: v }),
                    _ => None,
                }
            },
            _ => None,
        },
        None => None,
    }
}

fn account_member(fields: &Vec<(String, JsonValue)>, key: &String) -> (r: Option<Account>)
    ensures
        r == account_of(lookup(fields@, key@)),
{
    match find_member(fields, key) {
        Some(i) => match &fields[i].1 {
            JsonValue::Object(f) => {
                let b = data_value_member(f, &String::from_str("balance"));
                let c = data_value_member(f, &String::from_str("codeHash"));
                let n = data_value_member(f, &String::from_str("nonce"));
                let s = data_value_member(f, &String::from_str("storageRoot"));
                match (b, c, n, s) {
                    (Some(b), Some(c), Some(n), Some(s)) => Some(
                        Account { balance: b, code_hash: c, nonce: n, storage_root: s },
                    ),
                    _ => None,
                }
            },
            _ => None,
        },
        None => None,
    }
}

/// Reads `v` as a regular record.
pub fn decode_regular(v: &JsonValue) -> (r: Option<AccountData>)
    ensures
        r == regular_of(*v),
{
    match v {
        JsonValue::Object(f) => {
            let a = account_member(f, &String::from_str("account"));
            let t = member_i32(f, &String::from_str("accountType"));
            let e = member_opt_string(f, &String::from_str("ethAddress"));
            let h = member_string(f, &String::from_str("hash"));
            let ts = member_i64(f, &String::from_str("timestamp"));
            match (a, t, e, h, ts) {
                (Some(a), Some(t), Some(e), Some(h), Some(ts)) => Some(
                    AccountData::Regular {
                        account: a,
                        account_type: t,
                        eth_address: e,
                        hash: h,
                        timestamp: ts,
                    },
                ),
                _ => None,
            }
        },
        _ => None,
    }
}

fn is_special_member(k: &String) -> (r: bool)
    ensures
        r == is_special_key(k@),
{
    *k == String::from_str("accountType") || *k == String::from_str("hash") || *k
        == String::from_str("id") || *k == String::from_str("name") || *k == String::from_str(
        "nonce",
    ) || *k == String::from_str("timestamp")
}

/// Reads `v` as a special record, keeping the members it does not read.
pub fn decode_special(v: JsonValue) -> (r: Option<AccountData>)
    ensures
        match special_of(v) {
            Some(s) => r is Some && is_special_record(s, r->0),
            None => r is None,
        },
{
    match v {
        JsonValue::Object(mut f) => {
            let t = member_i32(&f, &String::from_str("accountType"));
            let h = member_string(&f, &String::from_str("hash"));
            let i = member_string(&f, &String::from_str("id"));
            let n = member_opt_string(&f, &String::from_str("name"));
            let c = member_opt_i64(&f, &String::from_str("nonce"));
            let ts = member_i64(&f, &String::from_str("timestamp"));
            match (t, h, i, n, c, ts) {
                (Some(t), Some(h), Some(i), Some(n), Some(c), Some(ts)) => {
                    let ghost all = f@;
                    let mut others: Vec<(String, JsonValue)> = Vec::new();
                    let ghost mut k: int = 0;
                    assert(all.subrange(0, 0) =~= Seq::<(String, JsonValue)>::empty());
                    assert(all.subrange(0, all.len() as int) =~= all);
                    while f.len() > 0
                        invariant
                            0 <= k <= all.len(),
                            f@ == all.subrange(k, all.len() as int),
                            others@ == other_members(all.subrange(0, k)),
                        decreases f@.len(),
                    {
                        let p = f.remove(0);
                        assert(all.subrange(0, k + 1).drop_last() =~= all.subrange(0, k));
                        assert(f@ =~= all.subrange(k + 1, all.len() as int));
                        if !is_special_member(&p.0) {
                            others.push(p);
                        }
                        proof {
                            k = k + 1;
                        }
                    }
                    assert(all.subrange(0, k) =~= all);
                    Some(
                        AccountData::Special {
                            account_type: t,
                            hash: h,
                            id: i,
                            name: n,
                            nonce: c,
                            timestamp: ts,
                            other_fields: others,
                        },
                    )
                },
                _ => None,
            }
        },
        _ => None,
    }
}

/// Decodes a JSON value: the regular shape is tried first, then the special one.
pub fn decode_json(v: JsonValue) -> (r: Option<AccountData>)
    ensures
        decodes_to(v, r),
{
    match decode_regular(&v) {
        Some(d) => Some(d),
        None => decode_special(v),
    }
}

/// Decodes the payload stored under `account_id`. A payload that is not JSON,
/// or that fits neither shape, gives a `DecodeError` naming the account.
pub fn decode_payload(account_id: &String, payload: &str) -> (r: Result<AccountData, DecodeError>)
    ensures
        match json_parse(payload@) {
            None => match r {
                Err(e) => e.account_id == *account_id && e.cause is InvalidJson,
                Ok(_) => false,
            },
            Some(v) => match r {
                Ok(d) => decodes_to(v, Some(d)),
                Err(e) => decodes_to(v, None) && e.account_id == *account_id
                    && e.cause is UnknownShape,
            },
        },
{
    match parse_json(payload) {
        Ok(v) => match decode_json(v) {
            Some(d) => Ok(d),
            None => Err(DecodeError { account_id: account_id.clone(), cause: DecodeCause::UnknownShape }),
        },
        Err(msg) => Err(DecodeError { account_id: account_id.clone(), cause: DecodeCause::InvalidJson(msg) }),
    }
}

/// A payload is comparable exactly when it fits the regular shape; one that
/// fits only the special shape is not.
pub proof fn law_comparable_iff_regular(v: JsonValue, d: AccountData)
    requires
        decodes_to(v, Some(d)),
    ensures
        (d is Regular) <==> (regular_of(v) is Some),
{
}

} // verus!
