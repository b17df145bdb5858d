//! The total order over protocol values.
//!
//! Maps and sets iterate in a deterministic order, so two values built
//! from the same entries always encode to the same bytes.  The order is:
//! variant rank first (in the wire-table order), then payload order
//! within a variant — numeric for integers, lexicographic for byte
//! payloads, element-wise for composites.  `cmp_value` is the
//! mathematical order (-1, 0, 1); `value_cmp` computes it.

use vstd::prelude::*;
use crate::value::Entry;
use crate::value::SpecValue;
use crate::value::Value;
use crate::value::view_list;
use crate::value::view_entries;
use crate::value::lemma_view_list;
use crate::value::lemma_view_entries;

verus! {

/// The rank of a variant: the position of its tag in the wire table.
pub open spec fn rank(v: SpecValue) -> int {
    match v {
        SpecValue::Null => 0,
        SpecValue::Bool(_) => 1,
        SpecValue::Int(_) => 2,
        SpecValue::Float(_) => 3,
        SpecValue::BigNumber(_) => 4,
        SpecValue::Error(_) => 5,
        SpecValue::String(_) => 6,
        SpecValue::Bytes(_) => 7,
        SpecValue::Array(_) => 8,
        SpecValue::Dict(_) => 9,
        SpecValue::SetOf(_) => 10,
        SpecValue::Attribute(_, _) => 11,
        SpecValue::Push(_, _) => 12,
        SpecValue::Done => 13,
    }
}

/// Lexicographic order on byte strings; a proper prefix comes first.
pub open spec fn bytes_cmp(a: Seq<u8>, b: Seq<u8>) -> int
    decreases a.len(),
{
    if a.len() == 0 && b.len() == 0 {
        0
    } else if a.len() == 0 {
        -1
    } else if b.len() == 0 {
        1
    } else if a[0] < b[0] {
        -1
    } else if a[0] > b[0] {
        1
    } else {
        bytes_cmp(a.skip(1), b.skip(1))
    }
}

/// The total order on values: variant rank first, then payload.
pub open spec fn cmp_value(a: SpecValue, b: SpecValue) -> int
    decreases a, b, 2int,
{
    if rank(a) < rank(b) {
        -1
    } else if rank(a) > rank(b) {
        1
    } else {
        match (a, b) {
            (SpecValue::Null, SpecValue::Null) => 0,
            (SpecValue::Bool(x), SpecValue::Bool(y)) => if x == y {
                0
            } else if !x {
                -1
            } else {
                1
            },
            (SpecValue::Int(x), SpecValue::Int(y)) => if x < y {
                -1
            } else if x > y {
                1
            } else {
                0
            },
            (SpecValue::Float(x), SpecValue::Float(y)) => bytes_cmp(x, y),
            (SpecValue::BigNumber(x), SpecValue::BigNumber(y)) => bytes_cmp(x, y),
            (SpecValue::Error(x), SpecValue::Error(y)) => bytes_cmp(x, y),
            (SpecValue::String(x), SpecValue::String(y)) => bytes_cmp(x, y),
            (SpecValue::Bytes(x), SpecValue::Bytes(y)) => bytes_cmp(x, y),
            (SpecValue::Array(x), SpecValue::Array(y)) => cmp_list(x, y),
            (SpecValue::Dict(x), SpecValue::Dict(y)) => cmp_entries(x, y),
            (SpecValue::SetOf(x), SpecValue::SetOf(y)) => cmp_list(x, y),
            (SpecValue::Attribute(x, ia), SpecValue::Attribute(y, ib)) => {
                let c = cmp_entries(x, y);
                if c != 0 {
                    c
                } else {
                    cmp_value(*ia, *ib)
                }
            },
            (SpecValue::Push(kx, x), SpecValue::Push(ky, y)) => {
                let c = bytes_cmp(kx, ky);
                if c != 0 {
                    c
                } else {
                    cmp_list(x, y)
                }
            },
            (SpecValue::Done, SpecValue::Done) => 0,
            _ => 0,
        }
    }
}

/// Element-wise order on value sequences; a proper prefix comes first.
pub open spec fn cmp_list(x: Seq<SpecValue>, y: Seq<SpecValue>) -> int
    decreases x, y, 1int,
{
    if x.len() == 0 && y.len() == 0 {
        0
    } else if x.len() == 0 {
        -1
    } else if y.len() == 0 {
        1
    } else {
        let c = cmp_value(x[0], y[0]);
        if c != 0 {
            c
        } else {
            cmp_list(x.skip(1), y.skip(1))
        }
    }
}

/// Order on one key/value pair: key first, then value.
pub open spec fn cmp_pair(x: (SpecValue, SpecValue), y: (SpecValue, SpecValue)) -> int
    decreases x, y, 0int,
{
    let c = cmp_value(x.0, y.0);
    if c != 0 {
        c
    } else {
        cmp_value(x.1, y.1)
    }
}

/// Element-wise order on entry sequences; a proper prefix comes first.
pub open spec fn cmp_entries(x: Seq<(SpecValue, SpecValue)>, y: Seq<(SpecValue, SpecValue)>) -> int
    decreases x, y, 1int,
{
    if x.len() == 0 && y.len() == 0 {
        0
    } else if x.len() == 0 {
        -1
    } else if y.len() == 0 {
        1
    } else {
        let c = cmp_pair(x[0], y[0]);
        if c != 0 {
            c
        } else {
            cmp_entries(x.skip(1), y.skip(1))
        }
    }
}

/// `bytes_cmp` takes only the values -1, 0 and 1, and is 0 exactly on
/// equal strings.
pub proof fn lemma_bytes_cmp_eq(a: Seq<u8>, b: Seq<u8>)
    ensures
        -1 <= bytes_cmp(a, b) <= 1,
        (bytes_cmp(a, b) == 0) <==> (a == b),
    decreases a.len(),
{
    if a.len() > 0 && b.len() > 0 && a[0] == b[0] {
        lemma_bytes_cmp_eq(a.skip(1), b.skip(1));
        if bytes_cmp(a, b) == 0 {
            assert(a =~= seq![a[0]] + a.skip(1));
            assert(b =~= seq![b[0]] + b.skip(1));
        }
        if a == b {
            assert(a.skip(1) =~= b.skip(1));
        }
    } else {
        if a.len() == 0 && b.len() == 0 {
            assert(a =~= b);
        }
    }
}

/// Swapping the arguments of `bytes_cmp` flips its sign.
pub proof fn lemma_bytes_cmp_antisym(a: Seq<u8>, b: Seq<u8>)
    ensures
        bytes_cmp(a, b) == -bytes_cmp(b, a),
    decreases a.len(),
{
    if a.len() > 0 && b.len() > 0 && a[0] == b[0] {
        lemma_bytes_cmp_antisym(a.skip(1), b.skip(1));
    }
}

/// `bytes_cmp` is transitive in its strict part.
pub proof fn lemma_bytes_cmp_trans(a: Seq<u8>, b: Seq<u8>, c: Seq<u8>)
    requires
        bytes_cmp(a, b) == -1,
        bytes_cmp(b, c) == -1,
    ensures
        bytes_cmp(a, c) == -1,
    decreases a.len(),
{
    if a.len() > 0 && b.len() > 0 && c.len() > 0 {
        if a[0] == b[0] && b[0] == c[0] {
            lemma_bytes_cmp_trans(a.skip(1), b.skip(1), c.skip(1));
        }
    }
}

/// `cmp_value` takes only the values -1, 0 and 1, and is 0 exactly on
/// equal values.  The same holds element-wise for lists and entries.
pub proof fn lemma_cmp_value_eq(a: SpecValue, b: SpecValue)
    ensures
        -1 <= cmp_value(a, b) <= 1,
        (cmp_value(a, b) == 0) <==> (a == b),
    decreases a, b, 2int,
{
    if rank(a) == rank(b) {
        match (a, b) {
            (SpecValue::Float(x), SpecValue::Float(y)) => lemma_bytes_cmp_eq(x, y),
            (SpecValue::BigNumber(x), SpecValue::BigNumber(y)) => lemma_bytes_cmp_eq(x, y),
            (SpecValue::Error(x), SpecValue::Error(y)) => lemma_bytes_cmp_eq(x, y),
            (SpecValue::String(x), SpecValue::String(y)) => lemma_bytes_cmp_eq(x, y),
            (SpecValue::Bytes(x), SpecValue::Bytes(y)) => lemma_bytes_cmp_eq(x, y),
            (SpecValue::Array(x), SpecValue::Array(y)) => lemma_cmp_list_eq(x, y),
            (SpecValue::Dict(x), SpecValue::Dict(y)) => lemma_cmp_entries_eq(x, y),
            (SpecValue::SetOf(x), SpecValue::SetOf(y)) => lemma_cmp_list_eq(x, y),
            (SpecValue::Attribute(x, ia), SpecValue::Attribute(y, ib)) => {
                lemma_cmp_entries_eq(x, y);
                lemma_cmp_value_eq(*ia, *ib);
            },
            (SpecValue::Push(kx, x), SpecValue::Push(ky, y)) => {
                lemma_bytes_cmp_eq(kx, ky);
                lemma_cmp_list_eq(x, y);
            },
            _ => {},
        }
    }
}

/// See `lemma_cmp_value_eq`.
pub proof fn lemma_cmp_list_eq(x: Seq<SpecValue>, y: Seq<SpecValue>)
    ensures
        -1 <= cmp_list(x, y) <= 1,
        (cmp_list(x, y) == 0) <==> (x == y),
    decreases x, y, 1int,
{
    if x.len() > 0 && y.len() > 0 {
        lemma_cmp_value_eq(x[0], y[0]);
        lemma_cmp_list_eq(x.skip(1), y.skip(1));
        if cmp_list(x, y) == 0 {
            assert(x =~= seq![x[0]] + x.skip(1));
            assert(y =~= seq![y[0]] + y.skip(1));
        }
        if x == y {
            assert(x.skip(1) =~= y.skip(1));
        }
    } else {
        if x.len() == 0 && y.len() == 0 {
            assert(x =~= y);
        }
    }
}

/// See `lemma_cmp_value_eq`.
pub proof fn lemma_cmp_entries_eq(x: Seq<(SpecValue, SpecValue)>, y: Seq<(SpecValue, SpecValue)>)
    ensures
        -1 <= cmp_entries(x, y) <= 1,
        (cmp_entries(x, y) == 0) <==> (x == y),
    decreases x, y, 1int,
{
    if x.len() > 0 && y.len() > 0 {
        lemma_cmp_pair_eq(x[0], y[0]);
        lemma_cmp_entries_eq(x.skip(1), y.skip(1));
        if cmp_entries(x, y) == 0 {
            assert(cmp_pair(x[0], y[0]) == 0);
            assert(x[0] == y[0]);
            assert(x =~= seq![x[0]] + x.skip(1));
            assert(y =~= seq![y[0]] + y.skip(1));
        }
        if x == y {
            assert(x.skip(1) =~= y.skip(1));
        }
    } else {
        if x.len() == 0 && y.len() == 0 {
            assert(x =~= y);
        }
    }
}

/// Swapping the arguments of `cmp_value` flips its sign; the same holds
/// for lists and entries.
pub proof fn lemma_cmp_value_antisym(a: SpecValue, b: SpecValue)
    ensures
        cmp_value(a, b) == -cmp_value(b, a),
    decreases a, b, 2int,
{
    if rank(a) == rank(b) {
        match (a, b) {
            (SpecValue::Float(x), SpecValue::Float(y)) => lemma_bytes_cmp_antisym(x, y),
            (SpecValue::BigNumber(x), SpecValue::BigNumber(y)) => lemma_bytes_cmp_antisym(x, y),
            (SpecValue::Error(x), SpecValue::Error(y)) => lemma_bytes_cmp_antisym(x, y),
            (SpecValue::String(x), SpecValue::String(y)) => lemma_bytes_cmp_antisym(x, y),
            (SpecValue::Bytes(x), SpecValue::Bytes(y)) => lemma_bytes_cmp_antisym(x, y),
            (SpecValue::Array(x), SpecValue::Array(y)) => lemma_cmp_list_antisym(x, y),
            (SpecValue::Dict(x), SpecValue::Dict(y)) => lemma_cmp_entries_antisym(x, y),
            (SpecValue::SetOf(x), SpecValue::SetOf(y)) => lemma_cmp_list_antisym(x, y),
            (SpecValue::Attribute(x, ia), SpecValue::Attribute(y, ib)) => {
                lemma_cmp_entries_antisym(x, y);
                lemma_cmp_value_antisym(*ia, *ib);
            },
            (SpecValue::Push(kx, x), SpecValue::Push(ky, y)) => {
                lemma_bytes_cmp_antisym(kx, ky);
                lemma_cmp_list_antisym(x, y);
            },
            _ => {},
        }
    }
}

/// See `lemma_cmp_value_antisym`.
pub proof fn lemma_cmp_list_antisym(x: Seq<SpecValue>, y: Seq<SpecValue>)
    ensures
        cmp_list(x, y) == -cmp_list(y, x),
    decreases x, y, 1int,
{
    if x.len() > 0 && y.len() > 0 {
        lemma_cmp_value_antisym(x[0], y[0]);
        lemma_cmp_list_antisym(x.skip(1), y.skip(1));
    }
}

/// See `lemma_cmp_value_antisym`.
pub proof fn lemma_cmp_entries_antisym(x: Seq<(SpecValue, SpecValue)>, y: Seq<(SpecValue, SpecValue)>)
    ensures
        cmp_entries(x, y) == -cmp_entries(y, x),
    decreases x, y, 1int,
{
    if x.len() > 0 && y.len() > 0 {
        lemma_cmp_pair_antisym(x[0], y[0]);
        lemma_cmp_entries_antisym(x.skip(1), y.skip(1));
    }
}

/// Swapping the arguments of `cmp_pair` flips its sign.
pub proof fn lemma_cmp_pair_antisym(x: (SpecValue, SpecValue), y: (SpecValue, SpecValue))
    ensures
        cmp_pair(x, y) == -cmp_pair(y, x),
    decreases x, y, 0int,
{
    lemma_cmp_value_antisym(x.0, y.0);
    lemma_cmp_value_antisym(x.1, y.1);
}

/// The strict part of `cmp_value` is transitive; the same holds for
/// lists and entries.
pub proof fn lemma_cmp_value_trans(a: SpecValue, b: SpecValue, c: SpecValue)
    requires
        cmp_value(a, b) == -1,
        cmp_value(b, c) == -1,
    ensures
        cmp_value(a, c) == -1,
    decreases a, b, 2int,
{
    lemma_cmp_value_eq(a, b);
    lemma_cmp_value_eq(b, c);
    lemma_cmp_value_eq(a, c);
    if rank(a) == rank(b) && rank(b) == rank(c) {
        match (a, b) {
            (SpecValue::Float(x), SpecValue::Float(y)) => {
                if let SpecValue::Float(z) = c {
                    lemma_bytes_cmp_trans(x, y, z);
                }
            },
            (SpecValue::BigNumber(x), SpecValue::BigNumber(y)) => {
                if let SpecValue::BigNumber(z) = c {
                    lemma_bytes_cmp_trans(x, y, z);
                }
            },
            (SpecValue::Error(x), SpecValue::Error(y)) => {
                if let SpecValue::Error(z) = c {
                    lemma_bytes_cmp_trans(x, y, z);
                }
            },
            (SpecValue::String(x), SpecValue::String(y)) => {
                if let SpecValue::String(z) = c {
                    lemma_bytes_cmp_trans(x, y, z);
                }
            },
            (SpecValue::Bytes(x), SpecValue::Bytes(y)) => {
                if let SpecValue::Bytes(z) = c {
                    lemma_bytes_cmp_trans(x, y, z);
                }
            },
            (SpecValue::Array(x), SpecValue::Array(y)) => {
                if let SpecValue::Array(z) = c {
                    lemma_cmp_list_trans(x, y, z);
                }
            },
            (SpecValue::Dict(x), SpecValue::Dict(y)) => {
                if let SpecValue::Dict(z) = c {
                    lemma_cmp_entries_trans(x, y, z);
                }
            },
            (SpecValue::SetOf(x), SpecValue::SetOf(y)) => {
                if let SpecValue::SetOf(z) = c {
                    lemma_cmp_list_trans(x, y, z);
                }
            },
            (SpecValue::Attribute(x, ia), SpecValue::Attribute(y, ib)) => {
                if let SpecValue::Attribute(z, ic) = c {
                    lemma_cmp_entries_eq(x, y);
                    lemma_cmp_entries_eq(y, z);
                    lemma_cmp_entries_eq(x, z);
                    if cmp_entries(x, y) == -1 && cmp_entries(y, z) == -1 {
                        lemma_cmp_entries_trans(x, y, z);
                    } else if cmp_entries(x, y) == 0 && cmp_entries(y, z) == 0 {
                        lemma_cmp_value_trans(*ia, *ib, *ic);
                    }
                }
            },
            (SpecValue::Push(kx, x), SpecValue::Push(ky, y)) => {
                if let SpecValue::Push(kz, z) = c {
                    lemma_bytes_cmp_eq(kx, ky);
                    lemma_bytes_cmp_eq(ky, kz);
                    lemma_bytes_cmp_eq(kx, kz);
                    if bytes_cmp(kx, ky) == -1 && bytes_cmp(ky, kz) == -1 {
                        lemma_bytes_cmp_trans(kx, ky, kz);
                    } else if bytes_cmp(kx, ky) == 0 && bytes_cmp(ky, kz) == 0 {
                        lemma_cmp_list_trans(x, y, z);
                    }
                }
            },
            _ => {},
        }
    }
}

/// See `lemma_cmp_value_trans`.
pub proof fn lemma_cmp_list_trans(x: Seq<SpecValue>, y: Seq<SpecValue>, z: Seq<SpecValue>)
    requires
        cmp_list(x, y) == -1,
        cmp_list(y, z) == -1,
    ensures
        cmp_list(x, z) == -1,
    decreases x, y, 1int,
{
    if x.len() > 0 && y.len() > 0 && z.len() > 0 {
        lemma_cmp_value_eq(x[0], y[0]);
        lemma_cmp_value_eq(y[0], z[0]);
        lemma_cmp_value_eq(x[0], z[0]);
        let c1 = cmp_value(x[0], y[0]);
        let c2 = cmp_value(y[0], z[0]);
        if c1 == -1 && c2 == -1 {
            lemma_cmp_value_trans(x[0], y[0], z[0]);
        } else if c1 == 0 && c2 == 0 {
            lemma_cmp_list_trans(x.skip(1), y.skip(1), z.skip(1));
        }
    }
}

/// See `lemma_cmp_value_trans`.
pub proof fn lemma_cmp_entries_trans(
    x: Seq<(SpecValue, SpecValue)>,
    y: Seq<(SpecValue, SpecValue)>,
    z: Seq<(SpecValue, SpecValue)>,
)
    requires
        cmp_entries(x, y) == -1,
        cmp_entries(y, z) == -1,
    ensures
        cmp_entries(x, z) == -1,
    decreases x, y, 1int,
{
    if x.len() > 0 && y.len() > 0 && z.len() > 0 {
        lemma_cmp_pair_eq(x[0], y[0]);
        lemma_cmp_pair_eq(y[0], z[0]);
        lemma_cmp_pair_eq(x[0], z[0]);
        let c1 = cmp_pair(x[0], y[0]);
        let c2 = cmp_pair(y[0], z[0]);
        if c1 == -1 && c2 == -1 {
            lemma_cmp_pair_trans(x[0], y[0], z[0]);
        } else if c1 == 0 && c2 == 0 {
            lemma_cmp_entries_trans(x.skip(1), y.skip(1), z.skip(1));
        }
    }
}

/// `cmp_pair` takes only the values -1, 0 and 1, and is 0 exactly on
/// equal pairs.
pub proof fn lemma_cmp_pair_eq(x: (SpecValue, SpecValue), y: (SpecValue, SpecValue))
    ensures
        -1 <= cmp_pair(x, y) <= 1,
        (cmp_pair(x, y) == 0) <==> (x == y),
    decreases x, y, 0int,
{
    lemma_cmp_value_eq(x.0, y.0);
    lemma_cmp_value_eq(x.1, y.1);
}

/// The strict part of `cmp_pair` is transitive.
pub proof fn lemma_cmp_pair_trans(
    x: (SpecValue, SpecValue),
    y: (SpecValue, SpecValue),
    z: (SpecValue, SpecValue),
)
    requires
        cmp_pair(x, y) == -1,
        cmp_pair(y, z) == -1,
    ensures
        cmp_pair(x, z) == -1,
    decreases x, y, 0int,
{
    lemma_cmp_value_eq(x.0, y.0);
    lemma_cmp_value_eq(y.0, z.0);
    lemma_cmp_value_eq(x.0, z.0);
    if cmp_value(x.0, y.0) == -1 && cmp_value(y.0, z.0) == -1 {
        lemma_cmp_value_trans(x.0, y.0, z.0);
    } else if cmp_value(x.0, y.0) == 0 && cmp_value(y.0, z.0) == 0 {
        lemma_cmp_value_trans(x.1, y.1, z.1);
    }
}

/// Compares two byte strings lexicographically.
pub fn bytes_compare(a: &[u8], b: &[u8]) -> (r: i8)
    ensures
        r as int == bytes_cmp(a@, b@),
{
    proof {
        assert(a@.skip(0) =~= a@);
        assert(b@.skip(0) =~= b@);
    }
    let mut i: usize = 0;
    while i < a.len() && i < b.len()
        invariant
            i <= a@.len() && i <= b@.len(),
            bytes_cmp(a@, b@) == bytes_cmp(a@.skip(i as int), b@.skip(i as int)),
        decreases a@.len() - i,
    {
        if a[i] < b[i] {
            proof {
                assert(a@.skip(i as int)[0] == a@[i as int]);
                assert(b@.skip(i as int)[0] == b@[i as int]);
            }
            return -1;
        }
        if a[i] > b[i] {
            proof {
                assert(a@.skip(i as int)[0] == a@[i as int]);
                assert(b@.skip(i as int)[0] == b@[i as int]);
            }
            return 1;
        }
        proof {
            assert(a@.skip(i as int)[0] == a@[i as int]);
            assert(b@.skip(i as int)[0] == b@[i as int]);
            assert(a@.skip(i as int).skip(1) =~= a@.skip(i as int + 1));
            assert(b@.skip(i as int).skip(1) =~= b@.skip(i as int + 1));
        }
        i = i + 1;
    }
    if a.len() == b.len() {
        0
    } else if a.len() < b.len() {
        -1
    } else {
        1
    }
}

/// The rank of a value's variant, computed.
pub fn rank_of(v: &Value) -> (r: u8)
    ensures
        r as int == rank(v@),
{
    match v {
        Value::Null => 0,
        Value::Bool(_) => 1,
        Value::Int(_) => 2,
        Value::Float(_) => 3,
        Value::BigNumber(_) => 4,
        Value::Error(_) => 5,
        Value::String(_) => 6,
        Value::Bytes(_) => 7,
        Value::Array(_) => 8,
        Value::Dict(_) => 9,
        Value::SetOf(_) => 10,
        Value::Attribute(_, _) => 11,
        Value::Push(_, _) => 12,
        Value::Done => 13,
    }
}

/// Compares two values in the total order.
pub fn value_cmp(a: &Value, b: &Value) -> (r: i8)
    ensures
        r as int == cmp_value(a@, b@),
    decreases a,
{
    let ra = rank_of(a);
    let rb = rank_of(b);
    if ra < rb {
        return -1;
    }
    if ra > rb {
        return 1;
    }
    match (a, b) {
        (Value::Null, Value::Null) => 0,
        (Value::Bool(x), Value::Bool(y)) => {
            if *x == *y {
                0
            } else if !*x {
                -1
            } else {
                1
            }
        },
        (Value::Int(x), Value::Int(y)) => {
            if *x < *y {
                -1
            } else if *x > *y {
                1
            } else {
                0
            }
        },
        (Value::Float(x), Value::Float(y)) => bytes_compare(x.as_slice(), y.as_slice()),
        (Value::BigNumber(x), Value::BigNumber(y)) => bytes_compare(x.as_slice(), y.as_slice()),
        (Value::Error(x), Value::Error(y)) => bytes_compare(x.as_slice(), y.as_slice()),
        (Value::String(x), Value::String(y)) => bytes_compare(x.as_slice(), y.as_slice()),
        (Value::Bytes(x), Value::Bytes(y)) => bytes_compare(x.as_slice(), y.as_slice()),
        (Value::Array(x), Value::Array(y)) => list_cmp(x, y),
        (Value::Dict(x), Value::Dict(y)) => entries_cmp(x, y),
        (Value::SetOf(x), Value::SetOf(y)) => list_cmp(x, y),
        (Value::Attribute(x, ia), Value::Attribute(y, ib)) => {
            let c = entries_cmp(x, y);
            if c != 0 {
                c
            } else {
                value_cmp(ia, ib)
            }
        },
        (Value::Push(kx, x), Value::Push(ky, y)) => {
            let c = bytes_compare(kx.as_slice(), ky.as_slice());
            if c != 0 {
                c
            } else {
                list_cmp(x, y)
            }
        },
        (Value::Done, Value::Done) => 0,
        _ => {
            proof {
                assert(false);
            }
            0
        },
    }
}

/// If the first `i` elements agree, the list order is decided by the
/// remainders.
proof fn lemma_cmp_list_skip(x: Seq<SpecValue>, y: Seq<SpecValue>, i: int)
    requires
        0 <= i <= x.len() && i <= y.len(),
        forall|k: int| 0 <= k < i ==> cmp_value(#[trigger] x[k], y[k]) == 0,
    ensures
        cmp_list(x, y) == cmp_list(x.skip(i), y.skip(i)),
    decreases i,
{
    if i > 0 {
        assert(cmp_value(x[0], y[0]) == 0);
        if x.len() > 0 && y.len() > 0 {
            assert(cmp_list(x, y) == cmp_list(x.skip(1), y.skip(1)));
            assert forall|k: int| 0 <= k < i - 1 implies cmp_value(
                #[trigger] x.skip(1)[k],
                y.skip(1)[k],
            ) == 0 by {
                assert(x.skip(1)[k] == x[k + 1]);
                assert(y.skip(1)[k] == y[k + 1]);
            }
            lemma_cmp_list_skip(x.skip(1), y.skip(1), i - 1);
            assert(x.skip(1).skip(i - 1) =~= x.skip(i));
            assert(y.skip(1).skip(i - 1) =~= y.skip(i));
        }
    } else {
        assert(x.skip(0) =~= x);
        assert(y.skip(0) =~= y);
    }
}

/// See `lemma_cmp_list_skip`, for entries.
proof fn lemma_cmp_entries_skip(
    x: Seq<(SpecValue, SpecValue)>,
    y: Seq<(SpecValue, SpecValue)>,
    i: int,
)
    requires
        0 <= i <= x.len() && i <= y.len(),
        forall|k: int| 0 <= k < i ==> cmp_pair(#[trigger] x[k], y[k]) == 0,
    ensures
        cmp_entries(x, y) == cmp_entries(x.skip(i), y.skip(i)),
    decreases i,
{
    if i > 0 {
        assert(cmp_pair(x[0], y[0]) == 0);
        if x.len() > 0 && y.len() > 0 {
            assert(cmp_entries(x, y) == cmp_entries(x.skip(1), y.skip(1)));
            assert forall|k: int| 0 <= k < i - 1 implies cmp_pair(
                #[trigger] x.skip(1)[k],
                y.skip(1)[k],
            ) == 0 by {
                assert(x.skip(1)[k] == x[k + 1]);
                assert(y.skip(1)[k] == y[k + 1]);
            }
            lemma_cmp_entries_skip(x.skip(1), y.skip(1), i - 1);
            assert(x.skip(1).skip(i - 1) =~= x.skip(i));
            assert(y.skip(1).skip(i - 1) =~= y.skip(i));
        }
    } else {
        assert(x.skip(0) =~= x);
        assert(y.skip(0) =~= y);
    }
}

/// Compares two value vectors element-wise.
fn list_cmp(x: &Vec<Value>, y: &Vec<Value>) -> (r: i8)
    ensures
        r as int == cmp_list(view_list(x@), view_list(y@)),
    decreases x,
{
    proof {
        lemma_view_list(x@);
        lemma_view_list(y@);
    }
    let mut i: usize = 0;
    while i < x.len() && i < y.len()
        invariant
            i <= x@.len() && i <= y@.len(),
            forall|k: int|
                0 <= k < i ==> cmp_value(#[trigger] view_list(x@)[k], view_list(y@)[k]) == 0,
        decreases x@.len() - i,
    {
        proof {
            lemma_view_list(x@);
            lemma_view_list(y@);
        }
        let c = value_cmp(&x[i], &y[i]);
        if c != 0 {
            proof {
                lemma_cmp_list_skip(view_list(x@), view_list(y@), i as int);
                assert(view_list(x@).skip(i as int)[0] == view_list(x@)[i as int]);
                assert(view_list(y@).skip(i as int)[0] == view_list(y@)[i as int]);
                lemma_cmp_value_eq(view_list(x@)[i as int], view_list(y@)[i as int]);
            }
            return c;
        }
        i = i + 1;
    }
    proof {
        lemma_cmp_list_skip(view_list(x@), view_list(y@), i as int);
    }
    if x.len() == y.len() {
        0
    } else if x.len() < y.len() {
        -1
    } else {
        1
    }
}

/// Compares two entry vectors element-wise, keys before values.
fn entries_cmp(x: &Vec<Entry>, y: &Vec<Entry>) -> (r: i8)
    ensures
        r as int == cmp_entries(view_entries(x@), view_entries(y@)),
    decreases x,
{
    proof {
        lemma_view_entries(x@);
        lemma_view_entries(y@);
    }
    let mut i: usize = 0;
    while i < x.len() && i < y.len()
        invariant
            i <= x@.len() && i <= y@.len(),
            forall|k: int|
                0 <= k < i ==> cmp_pair(#[trigger] view_entries(x@)[k], view_entries(y@)[k]) == 0,
        decreases x@.len() - i,
    {
        proof {
            lemma_view_entries(x@);
            lemma_view_entries(y@);
        }
        let c = value_cmp(&x[i].key, &y[i].key);
        let c = if c != 0 {
            c
        } else {
            value_cmp(&x[i].val, &y[i].val)
        };
        proof {
            assert(view_entries(x@)[i as int] == x@[i as int]@);
            assert(x@[i as int]@ == (x@[i as int].key@, x@[i as int].val@));
            assert(view_entries(y@)[i as int] == y@[i as int]@);
            assert(y@[i as int]@ == (y@[i as int].key@, y@[i as int].val@));
            lemma_cmp_pair_eq(view_entries(x@)[i as int], view_entries(y@)[i as int]);
        }
        if c != 0 {
            proof {
                lemma_cmp_entries_skip(view_entries(x@), view_entries(y@), i as int);
                assert(view_entries(x@).skip(i as int)[0] == view_entries(x@)[i as int]);
                assert(view_entries(y@).skip(i as int)[0] == view_entries(y@)[i as int]);
                lemma_cmp_pair_eq(view_entries(x@)[i as int], view_entries(y@)[i as int]);
            }
            return c;
        }
        i = i + 1;
    }
    proof {
        lemma_cmp_entries_skip(view_entries(x@), view_entries(y@), i as int);
    }
    if x.len() == y.len() {
        0
    } else if x.len() < y.len() {
        -1
    } else {
        1
    }
}

} // verus!
