//! What the primitives do, by their names.
//!
//! A primitive is known by its name, and runs as a function of the database. The laws here tie the
//! characters of a name to what the function does to the values behind its handles.
use crate::duckdb::integer::{bit, quotient};
use crate::duckdb::ops::{
    bigint_result, bigrat_compared, bigrat_result, is_square, square_root, BigintOp, BigratOp,
};
use crate::duckdb::pool::{interning_gives_back, BaseTy, PoolState};
use crate::duckdb::rational::{abs, gcd, lowest};
use crate::duckdb::udf::{
    bigint_binary_result, bigrat_q_result, builtin_udf, handle, rats_at, side, with_int, with_rat,
    UdfKind,
};
use crate::text::swapped;
use vstd::arithmetic::power::pow;
use vstd::arithmetic::power2::pow2;
use vstd::prelude::*;
use vstd::string::*;

verus! {

proof fn named_string_concat(types: Seq<BaseTy>)
    requires
        types.contains(BaseTy::Str),
    ensures
        builtin_udf("string-concat"@, types) == Some(("__egglog_string_concat"@, UdfKind::StringConcat)),
{
    reveal_strlit("string-concat");
    assert("string-concat"@.len() == 13);
}

proof fn named_replace(types: Seq<BaseTy>)
    requires
        types.contains(BaseTy::Str),
    ensures
        builtin_udf("replace"@, types) == Some(("__egglog_replace"@, UdfKind::Replace)),
{
    reveal_strlit("replace");
    reveal_strlit("string-concat");
    assert("replace"@.len() == 7);
}

proof fn named_count_matches(types: Seq<BaseTy>)
    requires
        types.contains(BaseTy::Str),
    ensures
        builtin_udf("count-matches"@, types) == Some(("__egglog_count_matches"@, UdfKind::CountMatches)),
{
    reveal_strlit("count-matches");
    reveal_strlit("string-concat");
    reveal_strlit("replace");
    assert("count-matches"@.len() == 13);
    assert("count-matches"@[0] == 'c' && "string-concat"@[0] == 's');
}

proof fn named_i64_to_string(types: Seq<BaseTy>)
    requires
        types.contains(BaseTy::Str),
    ensures
        builtin_udf("i64-to-string"@, types) == Some(("__egglog_i64_to_string"@, UdfKind::I64ToString)),
{
    reveal_strlit("i64-to-string");
    reveal_strlit("string-concat");
    reveal_strlit("replace");
    reveal_strlit("count-matches");
    assert("i64-to-string"@.len() == 13);
    assert("i64-to-string"@[0] == 'i' && "string-concat"@[0] == 's');
    assert("i64-to-string"@[0] == 'i' && "count-matches"@[0] == 'c');
}

proof fn named_f64_to_string(types: Seq<BaseTy>)
    requires
        types.contains(BaseTy::Str),
    ensures
        builtin_udf("f64-to-string"@, types) == Some(("__egglog_f64_to_string"@, UdfKind::F64ToString)),
{
    reveal_strlit("f64-to-string");
    reveal_strlit("string-concat");
    reveal_strlit("replace");
    reveal_strlit("count-matches");
    reveal_strlit("i64-to-string");
    assert("f64-to-string"@.len() == 13);
    assert("f64-to-string"@[0] == 'f' && "string-concat"@[0] == 's');
    assert("f64-to-string"@[0] == 'f' && "count-matches"@[0] == 'c');
    assert("f64-to-string"@[0] == 'f' && "i64-to-string"@[0] == 'i');
}

proof fn named_bigint_to_string(types: Seq<BaseTy>)
    requires
        types.contains(BaseTy::Str),
        types.contains(BaseTy::BigInt),
    ensures
        builtin_udf("bigint-to-string"@, types) == Some(("__egglog_bigint_to_string"@, UdfKind::BigIntToString)),
{
    reveal_strlit("bigint-to-string");
    reveal_strlit("string-concat");
    reveal_strlit("replace");
    reveal_strlit("count-matches");
    reveal_strlit("i64-to-string");
    reveal_strlit("f64-to-string");
    assert("bigint-to-string"@.len() == 16);
}

proof fn named_bigint(types: Seq<BaseTy>)
    requires
        types.contains(BaseTy::BigInt),
    ensures
        builtin_udf("bigint"@, types) == Some(("__egglog_bigint"@, UdfKind::BigintConstructor)),
{
    reveal_strlit("bigint");
    reveal_strlit("string-concat");
    reveal_strlit("replace");
    reveal_strlit("count-matches");
    reveal_strlit("i64-to-string");
    reveal_strlit("f64-to-string");
    reveal_strlit("bigint-to-string");
    assert("bigint"@.len() == 6);
}

proof fn named_from_string(types: Seq<BaseTy>)
    requires
        types.contains(BaseTy::BigInt),
    ensures
        builtin_udf("from-string"@, types) == Some(("__egglog_from_string"@, UdfKind::FromString)),
{
    reveal_strlit("from-string");
    reveal_strlit("string-concat");
    reveal_strlit("replace");
    reveal_strlit("count-matches");
    reveal_strlit("i64-to-string");
    reveal_strlit("f64-to-string");
    reveal_strlit("bigint-to-string");
    reveal_strlit("bigint");
    assert("from-string"@.len() == 11);
}

proof fn named_bigrat(types: Seq<BaseTy>)
    requires
        types.contains(BaseTy::BigInt),
        types.contains(BaseTy::BigRat),
    ensures
        builtin_udf("bigrat"@, types) == Some(("__egglog_bigrat"@, UdfKind::Bigrat)),
{
    reveal_strlit("bigrat");
    reveal_strlit("string-concat");
    reveal_strlit("replace");
    reveal_strlit("count-matches");
    reveal_strlit("i64-to-string");
    reveal_strlit("f64-to-string");
    reveal_strlit("bigint-to-string");
    reveal_strlit("bigint");
    reveal_strlit("from-string");
    assert("bigrat"@.len() == 6);
    assert("bigrat"@[3] == 'r' && "bigint"@[3] == 'i');
}

proof fn named_get_size(types: Seq<BaseTy>)
    requires
        types.contains(BaseTy::BigInt),
    ensures
        builtin_udf("get-size!"@, types) == Some(("__egglog_get_size"@, UdfKind::GetSize)),
{
    reveal_strlit("get-size!");
    reveal_strlit("string-concat");
    reveal_strlit("replace");
    reveal_strlit("count-matches");
    reveal_strlit("i64-to-string");
    reveal_strlit("f64-to-string");
    reveal_strlit("bigint-to-string");
    reveal_strlit("bigint");
    reveal_strlit("from-string");
    reveal_strlit("bigrat");
    assert("get-size!"@.len() == 9);
}

proof fn named_bigint_add(types: Seq<BaseTy>)
    requires
        types.contains(BaseTy::BigInt),
    ensures
        builtin_udf("bigint-add"@, types) == Some(("__egglog_"@ + swapped("bigint-add"@, '-', '_'), UdfKind::BigintBinary(BigintOp::Add))),
{
    reveal_strlit("bigint-add");
    reveal_strlit("string-concat");
    reveal_strlit("replace");
    reveal_strlit("count-matches");
    reveal_strlit("i64-to-string");
    reveal_strlit("f64-to-string");
    reveal_strlit("bigint-to-string");
    reveal_strlit("bigint");
    reveal_strlit("from-string");
    reveal_strlit("bigrat");
    reveal_strlit("get-size!");
    assert("bigint-add"@.len() == 10);
}

proof fn named_bigint_sub(types: Seq<BaseTy>)
    requires
        types.contains(BaseTy::BigInt),
    ensures
        builtin_udf("bigint-sub"@, types) == Some(("__egglog_"@ + swapped("bigint-sub"@, '-', '_'), UdfKind::BigintBinary(BigintOp::Sub))),
{
    reveal_strlit("bigint-sub");
    reveal_strlit("string-concat");
    reveal_strlit("replace");
    reveal_strlit("count-matches");
    reveal_strlit("i64-to-string");
    reveal_strlit("f64-to-string");
    reveal_strlit("bigint-to-string");
    reveal_strlit("bigint");
    reveal_strlit("from-string");
    reveal_strlit("bigrat");
    reveal_strlit("get-size!");
    reveal_strlit("bigint-add");
    assert("bigint-sub"@.len() == 10);
    assert("bigint-sub"@[7] == 's' && "bigint-add"@[7] == 'a');
}

proof fn named_bigint_mul(types: Seq<BaseTy>)
    requires
        types.contains(BaseTy::BigInt),
    ensures
        builtin_udf("bigint-mul"@, types) == Some(("__egglog_"@ + swapped("bigint-mul"@, '-', '_'), UdfKind::BigintBinary(BigintOp::Mul))),
{
    reveal_strlit("bigint-mul");
    reveal_strlit("string-concat");
    reveal_strlit("replace");
    reveal_strlit("count-matches");
    reveal_strlit("i64-to-string");
    reveal_strlit("f64-to-string");
    reveal_strlit("bigint-to-string");
    reveal_strlit("bigint");
    reveal_strlit("from-string");
    reveal_strlit("bigrat");
    reveal_strlit("get-size!");
    reveal_strlit("bigint-add");
    reveal_strlit("bigint-sub");
    assert("bigint-mul"@.len() == 10);
    assert("bigint-mul"@[7] == 'm' && "bigint-add"@[7] == 'a');
    assert("bigint-mul"@[7] == 'm' && "bigint-sub"@[7] == 's');
}

proof fn named_bigint_div(types: Seq<BaseTy>)
    requires
        types.contains(BaseTy::BigInt),
    ensures
        builtin_udf("bigint-div"@, types) == Some(("__egglog_"@ + swapped("bigint-div"@, '-', '_'), UdfKind::BigintBinary(BigintOp::Div))),
{
    reveal_strlit("bigint-div");
    reveal_strlit("string-concat");
    reveal_strlit("replace");
    reveal_strlit("count-matches");
    reveal_strlit("i64-to-string");
    reveal_strlit("f64-to-string");
    reveal_strlit("bigint-to-string");
    reveal_strlit("bigint");
    reveal_strlit("from-string");
    reveal_strlit("bigrat");
    reveal_strlit("get-size!");
    reveal_strlit("bigint-add");
    reveal_strlit("bigint-sub");
    reveal_strlit("bigint-mul");
    assert("bigint-div"@.len() == 10);
    assert("bigint-div"@[7] == 'd' && "bigint-add"@[7] == 'a');
    assert("bigint-div"@[7] == 'd' && "bigint-sub"@[7] == 's');
    assert("bigint-div"@[7] == 'd' && "bigint-mul"@[7] == 'm');
}

proof fn named_bigint_rem(types: Seq<BaseTy>)
    requires
        types.contains(BaseTy::BigInt),
    ensures
        builtin_udf("bigint-rem"@, types) == Some(("__egglog_"@ + swapped("bigint-rem"@, '-', '_'), UdfKind::BigintBinary(BigintOp::Rem))),
{
    reveal_strlit("bigint-rem");
    reveal_strlit("string-concat");
    reveal_strlit("replace");
    reveal_strlit("count-matches");
    reveal_strlit("i64-to-string");
    reveal_strlit("f64-to-string");
    reveal_strlit("bigint-to-string");
    reveal_strlit("bigint");
    reveal_strlit("from-string");
    reveal_strlit("bigrat");
    reveal_strlit("get-size!");
    reveal_strlit("bigint-add");
    reveal_strlit("bigint-sub");
    reveal_strlit("bigint-mul");
    reveal_strlit("bigint-div");
    assert("bigint-rem"@.len() == 10);
    assert("bigint-rem"@[7] == 'r' && "bigint-add"@[7] == 'a');
    assert("bigint-rem"@[7] == 'r' && "bigint-sub"@[7] == 's');
    assert("bigint-rem"@[7] == 'r' && "bigint-mul"@[7] == 'm');
    assert("bigint-rem"@[7] == 'r' && "bigint-div"@[7] == 'd');
}

proof fn named_bigint_and(types: Seq<BaseTy>)
    requires
        types.contains(BaseTy::BigInt),
    ensures
        builtin_udf("bigint-and"@, types) == Some(("__egglog_"@ + swapped("bigint-and"@, '-', '_'), UdfKind::BigintBinary(BigintOp::And))),
{
    reveal_strlit("bigint-and");
    reveal_strlit("string-concat");
    reveal_strlit("replace");
    reveal_strlit("count-matches");
    reveal_strlit("i64-to-string");
    reveal_strlit("f64-to-string");
    reveal_strlit("bigint-to-string");
    reveal_strlit("bigint");
    reveal_strlit("from-string");
    reveal_strlit("bigrat");
    reveal_strlit("get-size!");
    reveal_strlit("bigint-add");
    reveal_strlit("bigint-sub");
    reveal_strlit("bigint-mul");
    reveal_strlit("bigint-div");
    reveal_strlit("bigint-rem");
    assert("bigint-and"@.len() == 10);
    assert("bigint-and"@[8] == 'n' && "bigint-add"@[8] == 'd');
    assert("bigint-and"@[7] == 'a' && "bigint-sub"@[7] == 's');
    assert("bigint-and"@[7] == 'a' && "bigint-mul"@[7] == 'm');
    assert("bigint-and"@[7] == 'a' && "bigint-div"@[7] == 'd');
    assert("bigint-and"@[7] == 'a' && "bigint-rem"@[7] == 'r');
}

proof fn named_bigint_or(types: Seq<BaseTy>)
    requires
        types.contains(BaseTy::BigInt),
    ensures
        builtin_udf("bigint-or"@, types) == Some(("__egglog_"@ + swapped("bigint-or"@, '-', '_'), UdfKind::BigintBinary(BigintOp::Or))),
{
    reveal_strlit("bigint-or");
    reveal_strlit("string-concat");
    reveal_strlit("replace");
    reveal_strlit("count-matches");
    reveal_strlit("i64-to-string");
    reveal_strlit("f64-to-string");
    reveal_strlit("bigint-to-string");
    reveal_strlit("bigint");
    reveal_strlit("from-string");
    reveal_strlit("bigrat");
    reveal_strlit("get-size!");
    reveal_strlit("bigint-add");
    reveal_strlit("bigint-sub");
    reveal_strlit("bigint-mul");
    reveal_strlit("bigint-div");
    reveal_strlit("bigint-rem");
    reveal_strlit("bigint-and");
    assert("bigint-or"@.len() == 9);
    assert("bigint-or"@[0] == 'b' && "get-size!"@[0] == 'g');
}

proof fn named_bigint_xor(types: Seq<BaseTy>)
    requires
        types.contains(BaseTy::BigInt),
    ensures
        builtin_udf("bigint-xor"@, types) == Some(("__egglog_"@ + swapped("bigint-xor"@, '-', '_'), UdfKind::BigintBinary(BigintOp::Xor))),
{
    reveal_strlit("bigint-xor");
    reveal_strlit("string-concat");
    reveal_strlit("replace");
    reveal_strlit("count-matches");
    reveal_strlit("i64-to-string");
    reveal_strlit("f64-to-string");
    reveal_strlit("bigint-to-string");
    reveal_strlit("bigint");
    reveal_strlit("from-string");
    reveal_strlit("bigrat");
    reveal_strlit("get-size!");
    reveal_strlit("bigint-add");
    reveal_strlit("bigint-sub");
    reveal_strlit("bigint-mul");
    reveal_strlit("bigint-div");
    reveal_strlit("bigint-rem");
    reveal_strlit("bigint-and");
    reveal_strlit("bigint-or");
    assert("bigint-xor"@.len() == 10);
    assert("bigint-xor"@[7] == 'x' && "bigint-add"@[7] == 'a');
    assert("bigint-xor"@[7] == 'x' && "bigint-sub"@[7] == 's');
    assert("bigint-xor"@[7] == 'x' && "bigint-mul"@[7] == 'm');
    assert("bigint-xor"@[7] == 'x' && "bigint-div"@[7] == 'd');
    assert("bigint-xor"@[7] == 'x' && "bigint-rem"@[7] == 'r');
    assert("bigint-xor"@[7] == 'x' && "bigint-and"@[7] == 'a');
}

proof fn named_bigint_min(types: Seq<BaseTy>)
    requires
        types.contains(BaseTy::BigInt),
    ensures
        builtin_udf("bigint-min"@, types) == Some(("__egglog_"@ + swapped("bigint-min"@, '-', '_'), UdfKind::BigintBinary(BigintOp::Min))),
{
    reveal_strlit("bigint-min");
    reveal_strlit("string-concat");
    reveal_strlit("replace");
    reveal_strlit("count-matches");
    reveal_strlit("i64-to-string");
    reveal_strlit("f64-to-string");
    reveal_strlit("bigint-to-string");
    reveal_strlit("bigint");
    reveal_strlit("from-string");
    reveal_strlit("bigrat");
    reveal_strlit("get-size!");
    reveal_strlit("bigint-add");
    reveal_strlit("bigint-sub");
    reveal_strlit("bigint-mul");
    reveal_strlit("bigint-div");
    reveal_strlit("bigint-rem");
    reveal_strlit("bigint-and");
    reveal_strlit("bigint-or");
    reveal_strlit("bigint-xor");
    assert("bigint-min"@.len() == 10);
    assert("bigint-min"@[7] == 'm' && "bigint-add"@[7] == 'a');
    assert("bigint-min"@[7] == 'm' && "bigint-sub"@[7] == 's');
    assert("bigint-min"@[8] == 'i' && "bigint-mul"@[8] == 'u');
    assert("bigint-min"@[7] == 'm' && "bigint-div"@[7] == 'd');
    assert("bigint-min"@[7] == 'm' && "bigint-rem"@[7] == 'r');
    assert("bigint-min"@[7] == 'm' && "bigint-and"@[7] == 'a');
    assert("bigint-min"@[7] == 'm' && "bigint-xor"@[7] == 'x');
}

proof fn named_bigint_max(types: Seq<BaseTy>)
    requires
        types.contains(BaseTy::BigInt),
    ensures
        builtin_udf("bigint-max"@, types) == Some(("__egglog_"@ + swapped("bigint-max"@, '-', '_'), UdfKind::BigintBinary(BigintOp::Max))),
{
    reveal_strlit("bigint-max");
    reveal_strlit("string-concat");
    reveal_strlit("replace");
    reveal_strlit("count-matches");
    reveal_strlit("i64-to-string");
    reveal_strlit("f64-to-string");
    reveal_strlit("bigint-to-string");
    reveal_strlit("bigint");
    reveal_strlit("from-string");
    reveal_strlit("bigrat");
    reveal_strlit("get-size!");
    reveal_strlit("bigint-add");
    reveal_strlit("bigint-sub");
    reveal_strlit("bigint-mul");
    reveal_strlit("bigint-div");
    reveal_strlit("bigint-rem");
    reveal_strlit("bigint-and");
    reveal_strlit("bigint-or");
    reveal_strlit("bigint-xor");
    reveal_strlit("bigint-min");
    assert("bigint-max"@.len() == 10);
    assert("bigint-max"@[7] == 'm' && "bigint-add"@[7] == 'a');
    assert("bigint-max"@[7] == 'm' && "bigint-sub"@[7] == 's');
    assert("bigint-max"@[8] == 'a' && "bigint-mul"@[8] == 'u');
    assert("bigint-max"@[7] == 'm' && "bigint-div"@[7] == 'd');
    assert("bigint-max"@[7] == 'm' && "bigint-rem"@[7] == 'r');
    assert("bigint-max"@[7] == 'm' && "bigint-and"@[7] == 'a');
    assert("bigint-max"@[7] == 'm' && "bigint-xor"@[7] == 'x');
    assert("bigint-max"@[8] == 'a' && "bigint-min"@[8] == 'i');
}

proof fn named_bigrat_add(types: Seq<BaseTy>)
    requires
        types.contains(BaseTy::BigInt),
        types.contains(BaseTy::BigRat),
    ensures
        builtin_udf("bigrat-add"@, types) == Some(("__egglog_"@ + swapped("bigrat-add"@, '-', '_'), UdfKind::BigratBinary(BigratOp::Add))),
{
    reveal_strlit("bigrat-add");
    reveal_strlit("string-concat");
    reveal_strlit("replace");
    reveal_strlit("count-matches");
    reveal_strlit("i64-to-string");
    reveal_strlit("f64-to-string");
    reveal_strlit("bigint-to-string");
    reveal_strlit("bigint");
    reveal_strlit("from-string");
    reveal_strlit("bigrat");
    reveal_strlit("get-size!");
    reveal_strlit("bigint-add");
    reveal_strlit("bigint-sub");
    reveal_strlit("bigint-mul");
    reveal_strlit("bigint-div");
    reveal_strlit("bigint-rem");
    reveal_strlit("bigint-and");
    reveal_strlit("bigint-or");
    reveal_strlit("bigint-xor");
    reveal_strlit("bigint-min");
    reveal_strlit("bigint-max");
    assert("bigrat-add"@.len() == 10);
    assert("bigrat-add"@[3] == 'r' && "bigint-add"@[3] == 'i');
    assert("bigrat-add"@[3] == 'r' && "bigint-sub"@[3] == 'i');
    assert("bigrat-add"@[3] == 'r' && "bigint-mul"@[3] == 'i');
    assert("bigrat-add"@[3] == 'r' && "bigint-div"@[3] == 'i');
    assert("bigrat-add"@[3] == 'r' && "bigint-rem"@[3] == 'i');
    assert("bigrat-add"@[3] == 'r' && "bigint-and"@[3] == 'i');
    assert("bigrat-add"@[3] == 'r' && "bigint-xor"@[3] == 'i');
    assert("bigrat-add"@[3] == 'r' && "bigint-min"@[3] == 'i');
    assert("bigrat-add"@[3] == 'r' && "bigint-max"@[3] == 'i');
}

proof fn named_bigrat_sub(types: Seq<BaseTy>)
    requires
        types.contains(BaseTy::BigInt),
        types.contains(BaseTy::BigRat),
    ensures
        builtin_udf("bigrat-sub"@, types) == Some(("__egglog_"@ + swapped("bigrat-sub"@, '-', '_'), UdfKind::BigratBinary(BigratOp::Sub))),
{
    reveal_strlit("bigrat-sub");
    reveal_strlit("string-concat");
    reveal_strlit("replace");
    reveal_strlit("count-matches");
    reveal_strlit("i64-to-string");
    reveal_strlit("f64-to-string");
    reveal_strlit("bigint-to-string");
    reveal_strlit("bigint");
    reveal_strlit("from-string");
    reveal_strlit("bigrat");
    reveal_strlit("get-size!");
    reveal_strlit("bigint-add");
    reveal_strlit("bigint-sub");
    reveal_strlit("bigint-mul");
    reveal_strlit("bigint-div");
    reveal_strlit("bigint-rem");
    reveal_strlit("bigint-and");
    reveal_strlit("bigint-or");
    reveal_strlit("bigint-xor");
    reveal_strlit("bigint-min");
    reveal_strlit("bigint-max");
    reveal_strlit("bigrat-add");
    assert("bigrat-sub"@.len() == 10);
    assert("bigrat-sub"@[3] == 'r' && "bigint-add"@[3] == 'i');
    assert("bigrat-sub"@[3] == 'r' && "bigint-sub"@[3] == 'i');
    assert("bigrat-sub"@[3] == 'r' && "bigint-mul"@[3] == 'i');
    assert("bigrat-sub"@[3] == 'r' && "bigint-div"@[3] == 'i');
    assert("bigrat-sub"@[3] == 'r' && "bigint-rem"@[3] == 'i');
    assert("bigrat-sub"@[3] == 'r' && "bigint-and"@[3] == 'i');
    assert("bigrat-sub"@[3] == 'r' && "bigint-xor"@[3] == 'i');
    assert("bigrat-sub"@[3] == 'r' && "bigint-min"@[3] == 'i');
    assert("bigrat-sub"@[3] == 'r' && "bigint-max"@[3] == 'i');
    assert("bigrat-sub"@[7] == 's' && "bigrat-add"@[7] == 'a');
}

proof fn named_bigrat_mul(types: Seq<BaseTy>)
    requires
        types.contains(BaseTy::BigInt),
        types.contains(BaseTy::BigRat),
    ensures
        builtin_udf("bigrat-mul"@, types) == Some(("__egglog_"@ + swapped("bigrat-mul"@, '-', '_'), UdfKind::BigratBinary(BigratOp::Mul))),
{
    reveal_strlit("bigrat-mul");
    reveal_strlit("string-concat");
    reveal_strlit("replace");
    reveal_strlit("count-matches");
    reveal_strlit("i64-to-string");
    reveal_strlit("f64-to-string");
    reveal_strlit("bigint-to-string");
    reveal_strlit("bigint");
    reveal_strlit("from-string");
    reveal_strlit("bigrat");
    reveal_strlit("get-size!");
    reveal_strlit("bigint-add");
    reveal_strlit("bigint-sub");
    reveal_strlit("bigint-mul");
    reveal_strlit("bigint-div");
    reveal_strlit("bigint-rem");
    reveal_strlit("bigint-and");
    reveal_strlit("bigint-or");
    reveal_strlit("bigint-xor");
    reveal_strlit("bigint-min");
    reveal_strlit("bigint-max");
    reveal_strlit("bigrat-add");
    reveal_strlit("bigrat-sub");
    assert("bigrat-mul"@.len() == 10);
    assert("bigrat-mul"@[3] == 'r' && "bigint-add"@[3] == 'i');
    assert("bigrat-mul"@[3] == 'r' && "bigint-sub"@[3] == 'i');
    assert("bigrat-mul"@[3] == 'r' && "bigint-mul"@[3] == 'i');
    assert("bigrat-mul"@[3] == 'r' && "bigint-div"@[3] == 'i');
    assert("bigrat-mul"@[3] == 'r' && "bigint-rem"@[3] == 'i');
    assert("bigrat-mul"@[3] == 'r' && "bigint-and"@[3] == 'i');
    assert("bigrat-mul"@[3] == 'r' && "bigint-xor"@[3] == 'i');
    assert("bigrat-mul"@[3] == 'r' && "bigint-min"@[3] == 'i');
    assert("bigrat-mul"@[3] == 'r' && "bigint-max"@[3] == 'i');
    assert("bigrat-mul"@[7] == 'm' && "bigrat-add"@[7] == 'a');
    assert("bigrat-mul"@[7] == 'm' && "bigrat-sub"@[7] == 's');
}

proof fn named_bigrat_div(types: Seq<BaseTy>)
    requires
        types.contains(BaseTy::BigInt),
        types.contains(BaseTy::BigRat),
    ensures
        builtin_udf("bigrat-div"@, types) == Some(("__egglog_"@ + swapped("bigrat-div"@, '-', '_'), UdfKind::BigratBinary(BigratOp::Div))),
{
    reveal_strlit("bigrat-div");
    reveal_strlit("string-concat");
    reveal_strlit("replace");
    reveal_strlit("count-matches");
    reveal_strlit("i64-to-string");
    reveal_strlit("f64-to-string");
    reveal_strlit("bigint-to-string");
    reveal_strlit("bigint");
    reveal_strlit("from-string");
    reveal_strlit("bigrat");
    reveal_strlit("get-size!");
    reveal_strlit("bigint-add");
    reveal_strlit("bigint-sub");
    reveal_strlit("bigint-mul");
    reveal_strlit("bigint-div");
    reveal_strlit("bigint-rem");
    reveal_strlit("bigint-and");
    reveal_strlit("bigint-or");
    reveal_strlit("bigint-xor");
    reveal_strlit("bigint-min");
    reveal_strlit("bigint-max");
    reveal_strlit("bigrat-add");
    reveal_strlit("bigrat-sub");
    reveal_strlit("bigrat-mul");
    assert("bigrat-div"@.len() == 10);
    assert("bigrat-div"@[3] == 'r' && "bigint-add"@[3] == 'i');
    assert("bigrat-div"@[3] == 'r' && "bigint-sub"@[3] == 'i');
    assert("bigrat-div"@[3] == 'r' && "bigint-mul"@[3] == 'i');
    assert("bigrat-div"@[3] == 'r' && "bigint-div"@[3] == 'i');
    assert("bigrat-div"@[3] == 'r' && "bigint-rem"@[3] == 'i');
    assert("bigrat-div"@[3] == 'r' && "bigint-and"@[3] == 'i');
    assert("bigrat-div"@[3] == 'r' && "bigint-xor"@[3] == 'i');
    assert("bigrat-div"@[3] == 'r' && "bigint-min"@[3] == 'i');
    assert("bigrat-div"@[3] == 'r' && "bigint-max"@[3] == 'i');
    assert("bigrat-div"@[7] == 'd' && "bigrat-add"@[7] == 'a');
    assert("bigrat-div"@[7] == 'd' && "bigrat-sub"@[7] == 's');
    assert("bigrat-div"@[7] == 'd' && "bigrat-mul"@[7] == 'm');
}

proof fn named_bigrat_min(types: Seq<BaseTy>)
    requires
        types.contains(BaseTy::BigInt),
        types.contains(BaseTy::BigRat),
    ensures
        builtin_udf("bigrat-min"@, types) == Some(("__egglog_"@ + swapped("bigrat-min"@, '-', '_'), UdfKind::BigratBinary(BigratOp::Min))),
{
    reveal_strlit("bigrat-min");
    reveal_strlit("string-concat");
    reveal_strlit("replace");
    reveal_strlit("count-matches");
    reveal_strlit("i64-to-string");
    reveal_strlit("f64-to-string");
    reveal_strlit("bigint-to-string");
    reveal_strlit("bigint");
    reveal_strlit("from-string");
    reveal_strlit("bigrat");
    reveal_strlit("get-size!");
    reveal_strlit("bigint-add");
    reveal_strlit("bigint-sub");
    reveal_strlit("bigint-mul");
    reveal_strlit("bigint-div");
    reveal_strlit("bigint-rem");
    reveal_strlit("bigint-and");
    reveal_strlit("bigint-or");
    reveal_strlit("bigint-xor");
    reveal_strlit("bigint-min");
    reveal_strlit("bigint-max");
    reveal_strlit("bigrat-add");
    reveal_strlit("bigrat-sub");
    reveal_strlit("bigrat-mul");
    reveal_strlit("bigrat-div");
    assert("bigrat-min"@.len() == 10);
    assert("bigrat-min"@[3] == 'r' && "bigint-add"@[3] == 'i');
    assert("bigrat-min"@[3] == 'r' && "bigint-sub"@[3] == 'i');
    assert("bigrat-min"@[3] == 'r' && "bigint-mul"@[3] == 'i');
    assert("bigrat-min"@[3] == 'r' && "bigint-div"@[3] == 'i');
    assert("bigrat-min"@[3] == 'r' && "bigint-rem"@[3] == 'i');
    assert("bigrat-min"@[3] == 'r' && "bigint-and"@[3] == 'i');
    assert("bigrat-min"@[3] == 'r' && "bigint-xor"@[3] == 'i');
    assert("bigrat-min"@[3] == 'r' && "bigint-min"@[3] == 'i');
    assert("bigrat-min"@[3] == 'r' && "bigint-max"@[3] == 'i');
    assert("bigrat-min"@[7] == 'm' && "bigrat-add"@[7] == 'a');
    assert("bigrat-min"@[7] == 'm' && "bigrat-sub"@[7] == 's');
    assert("bigrat-min"@[8] == 'i' && "bigrat-mul"@[8] == 'u');
    assert("bigrat-min"@[7] == 'm' && "bigrat-div"@[7] == 'd');
}

proof fn named_bigrat_max(types: Seq<BaseTy>)
    requires
        types.contains(BaseTy::BigInt),
        types.contains(BaseTy::BigRat),
    ensures
        builtin_udf("bigrat-max"@, types) == Some(("__egglog_"@ + swapped("bigrat-max"@, '-', '_'), UdfKind::BigratBinary(BigratOp::Max))),
{
    reveal_strlit("bigrat-max");
    reveal_strlit("string-concat");
    reveal_strlit("replace");
    reveal_strlit("count-matches");
    reveal_strlit("i64-to-string");
    reveal_strlit("f64-to-string");
    reveal_strlit("bigint-to-string");
    reveal_strlit("bigint");
    reveal_strlit("from-string");
    reveal_strlit("bigrat");
    reveal_strlit("get-size!");
    reveal_strlit("bigint-add");
    reveal_strlit("bigint-sub");
    reveal_strlit("bigint-mul");
    reveal_strlit("bigint-div");
    reveal_strlit("bigint-rem");
    reveal_strlit("bigint-and");
    reveal_strlit("bigint-or");
    reveal_strlit("bigint-xor");
    reveal_strlit("bigint-min");
    reveal_strlit("bigint-max");
    reveal_strlit("bigrat-add");
    reveal_strlit("bigrat-sub");
    reveal_strlit("bigrat-mul");
    reveal_strlit("bigrat-div");
    reveal_strlit("bigrat-min");
    assert("bigrat-max"@.len() == 10);
    assert("bigrat-max"@[3] == 'r' && "bigint-add"@[3] == 'i');
    assert("bigrat-max"@[3] == 'r' && "bigint-sub"@[3] == 'i');
    assert("bigrat-max"@[3] == 'r' && "bigint-mul"@[3] == 'i');
    assert("bigrat-max"@[3] == 'r' && "bigint-div"@[3] == 'i');
    assert("bigrat-max"@[3] == 'r' && "bigint-rem"@[3] == 'i');
    assert("bigrat-max"@[3] == 'r' && "bigint-and"@[3] == 'i');
    assert("bigrat-max"@[3] == 'r' && "bigint-xor"@[3] == 'i');
    assert("bigrat-max"@[3] == 'r' && "bigint-min"@[3] == 'i');
    assert("bigrat-max"@[3] == 'r' && "bigint-max"@[3] == 'i');
    assert("bigrat-max"@[7] == 'm' && "bigrat-add"@[7] == 'a');
    assert("bigrat-max"@[7] == 'm' && "bigrat-sub"@[7] == 's');
    assert("bigrat-max"@[8] == 'a' && "bigrat-mul"@[8] == 'u');
    assert("bigrat-max"@[7] == 'm' && "bigrat-div"@[7] == 'd');
    assert("bigrat-max"@[8] == 'a' && "bigrat-min"@[8] == 'i');
}

proof fn named_bigrat_pow(types: Seq<BaseTy>)
    requires
        types.contains(BaseTy::BigInt),
        types.contains(BaseTy::BigRat),
    ensures
        builtin_udf("bigrat-pow"@, types) == Some(("__egglog_"@ + swapped("bigrat-pow"@, '-', '_'), UdfKind::BigratBinary(BigratOp::Pow))),
{
    reveal_strlit("bigrat-pow");
    reveal_strlit("string-concat");
    reveal_strlit("replace");
    reveal_strlit("count-matches");
    reveal_strlit("i64-to-string");
    reveal_strlit("f64-to-string");
    reveal_strlit("bigint-to-string");
    reveal_strlit("bigint");
    reveal_strlit("from-string");
    reveal_strlit("bigrat");
    reveal_strlit("get-size!");
    reveal_strlit("bigint-add");
    reveal_strlit("bigint-sub");
    reveal_strlit("bigint-mul");
    reveal_strlit("bigint-div");
    reveal_strlit("bigint-rem");
    reveal_strlit("bigint-and");
    reveal_strlit("bigint-or");
    reveal_strlit("bigint-xor");
    reveal_strlit("bigint-min");
    reveal_strlit("bigint-max");
    reveal_strlit("bigrat-add");
    reveal_strlit("bigrat-sub");
    reveal_strlit("bigrat-mul");
    reveal_strlit("bigrat-div");
    reveal_strlit("bigrat-min");
    reveal_strlit("bigrat-max");
    assert("bigrat-pow"@.len() == 10);
    assert("bigrat-pow"@[3] == 'r' && "bigint-add"@[3] == 'i');
    assert("bigrat-pow"@[3] == 'r' && "bigint-sub"@[3] == 'i');
    assert("bigrat-pow"@[3] == 'r' && "bigint-mul"@[3] == 'i');
    assert("bigrat-pow"@[3] == 'r' && "bigint-div"@[3] == 'i');
    assert("bigrat-pow"@[3] == 'r' && "bigint-rem"@[3] == 'i');
    assert("bigrat-pow"@[3] == 'r' && "bigint-and"@[3] == 'i');
    assert("bigrat-pow"@[3] == 'r' && "bigint-xor"@[3] == 'i');
    assert("bigrat-pow"@[3] == 'r' && "bigint-min"@[3] == 'i');
    assert("bigrat-pow"@[3] == 'r' && "bigint-max"@[3] == 'i');
    assert("bigrat-pow"@[7] == 'p' && "bigrat-add"@[7] == 'a');
    assert("bigrat-pow"@[7] == 'p' && "bigrat-sub"@[7] == 's');
    assert("bigrat-pow"@[7] == 'p' && "bigrat-mul"@[7] == 'm');
    assert("bigrat-pow"@[7] == 'p' && "bigrat-div"@[7] == 'd');
    assert("bigrat-pow"@[7] == 'p' && "bigrat-min"@[7] == 'm');
    assert("bigrat-pow"@[7] == 'p' && "bigrat-max"@[7] == 'm');
}

proof fn named_bigrat_neg(types: Seq<BaseTy>)
    requires
        types.contains(BaseTy::BigInt),
        types.contains(BaseTy::BigRat),
    ensures
        builtin_udf("bigrat-neg"@, types) == Some(("__egglog_"@ + swapped("bigrat-neg"@, '-', '_'), UdfKind::BigratUnary(BigratOp::Neg))),
{
    reveal_strlit("bigrat-neg");
    reveal_strlit("string-concat");
    reveal_strlit("replace");
    reveal_strlit("count-matches");
    reveal_strlit("i64-to-string");
    reveal_strlit("f64-to-string");
    reveal_strlit("bigint-to-string");
    reveal_strlit("bigint");
    reveal_strlit("from-string");
    reveal_strlit("bigrat");
    reveal_strlit("get-size!");
    reveal_strlit("bigint-add");
    reveal_strlit("bigint-sub");
    reveal_strlit("bigint-mul");
    reveal_strlit("bigint-div");
    reveal_strlit("bigint-rem");
    reveal_strlit("bigint-and");
    reveal_strlit("bigint-or");
    reveal_strlit("bigint-xor");
    reveal_strlit("bigint-min");
    reveal_strlit("bigint-max");
    reveal_strlit("bigrat-add");
    reveal_strlit("bigrat-sub");
    reveal_strlit("bigrat-mul");
    reveal_strlit("bigrat-div");
    reveal_strlit("bigrat-min");
    reveal_strlit("bigrat-max");
    reveal_strlit("bigrat-pow");
    assert("bigrat-neg"@.len() == 10);
    assert("bigrat-neg"@[3] == 'r' && "bigint-add"@[3] == 'i');
    assert("bigrat-neg"@[3] == 'r' && "bigint-sub"@[3] == 'i');
    assert("bigrat-neg"@[3] == 'r' && "bigint-mul"@[3] == 'i');
    assert("bigrat-neg"@[3] == 'r' && "bigint-div"@[3] == 'i');
    assert("bigrat-neg"@[3] == 'r' && "bigint-rem"@[3] == 'i');
    assert("bigrat-neg"@[3] == 'r' && "bigint-and"@[3] == 'i');
    assert("bigrat-neg"@[3] == 'r' && "bigint-xor"@[3] == 'i');
    assert("bigrat-neg"@[3] == 'r' && "bigint-min"@[3] == 'i');
    assert("bigrat-neg"@[3] == 'r' && "bigint-max"@[3] == 'i');
    assert("bigrat-neg"@[7] == 'n' && "bigrat-add"@[7] == 'a');
    assert("bigrat-neg"@[7] == 'n' && "bigrat-sub"@[7] == 's');
    assert("bigrat-neg"@[7] == 'n' && "bigrat-mul"@[7] == 'm');
    assert("bigrat-neg"@[7] == 'n' && "bigrat-div"@[7] == 'd');
    assert("bigrat-neg"@[7] == 'n' && "bigrat-min"@[7] == 'm');
    assert("bigrat-neg"@[7] == 'n' && "bigrat-max"@[7] == 'm');
    assert("bigrat-neg"@[7] == 'n' && "bigrat-pow"@[7] == 'p');
}

proof fn named_bigrat_abs(types: Seq<BaseTy>)
    requires
        types.contains(BaseTy::BigInt),
        types.contains(BaseTy::BigRat),
    ensures
        builtin_udf("bigrat-abs"@, types) == Some(("__egglog_"@ + swapped("bigrat-abs"@, '-', '_'), UdfKind::BigratUnary(BigratOp::Abs))),
{
    reveal_strlit("bigrat-abs");
    reveal_strlit("string-concat");
    reveal_strlit("replace");
    reveal_strlit("count-matches");
    reveal_strlit("i64-to-string");
    reveal_strlit("f64-to-string");
    reveal_strlit("bigint-to-string");
    reveal_strlit("bigint");
    reveal_strlit("from-string");
    reveal_strlit("bigrat");
    reveal_strlit("get-size!");
    reveal_strlit("bigint-add");
    reveal_strlit("bigint-sub");
    reveal_strlit("bigint-mul");
    reveal_strlit("bigint-div");
    reveal_strlit("bigint-rem");
    reveal_strlit("bigint-and");
    reveal_strlit("bigint-or");
    reveal_strlit("bigint-xor");
    reveal_strlit("bigint-min");
    reveal_strlit("bigint-max");
    reveal_strlit("bigrat-add");
    reveal_strlit("bigrat-sub");
    reveal_strlit("bigrat-mul");
    reveal_strlit("bigrat-div");
    reveal_strlit("bigrat-min");
    reveal_strlit("bigrat-max");
    reveal_strlit("bigrat-pow");
    reveal_strlit("bigrat-neg");
    assert("bigrat-abs"@.len() == 10);
    assert("bigrat-abs"@[3] == 'r' && "bigint-add"@[3] == 'i');
    assert("bigrat-abs"@[3] == 'r' && "bigint-sub"@[3] == 'i');
    assert("bigrat-abs"@[3] == 'r' && "bigint-mul"@[3] == 'i');
    assert("bigrat-abs"@[3] == 'r' && "bigint-div"@[3] == 'i');
    assert("bigrat-abs"@[3] == 'r' && "bigint-rem"@[3] == 'i');
    assert("bigrat-abs"@[3] == 'r' && "bigint-and"@[3] == 'i');
    assert("bigrat-abs"@[3] == 'r' && "bigint-xor"@[3] == 'i');
    assert("bigrat-abs"@[3] == 'r' && "bigint-min"@[3] == 'i');
    assert("bigrat-abs"@[3] == 'r' && "bigint-max"@[3] == 'i');
    assert("bigrat-abs"@[8] == 'b' && "bigrat-add"@[8] == 'd');
    assert("bigrat-abs"@[7] == 'a' && "bigrat-sub"@[7] == 's');
    assert("bigrat-abs"@[7] == 'a' && "bigrat-mul"@[7] == 'm');
    assert("bigrat-abs"@[7] == 'a' && "bigrat-div"@[7] == 'd');
    assert("bigrat-abs"@[7] == 'a' && "bigrat-min"@[7] == 'm');
    assert("bigrat-abs"@[7] == 'a' && "bigrat-max"@[7] == 'm');
    assert("bigrat-abs"@[7] == 'a' && "bigrat-pow"@[7] == 'p');
    assert("bigrat-abs"@[7] == 'a' && "bigrat-neg"@[7] == 'n');
}

proof fn named_bigrat_floor(types: Seq<BaseTy>)
    requires
        types.contains(BaseTy::BigInt),
        types.contains(BaseTy::BigRat),
    ensures
        builtin_udf("bigrat-floor"@, types) == Some(("__egglog_"@ + swapped("bigrat-floor"@, '-', '_'), UdfKind::BigratUnary(BigratOp::Floor))),
{
    reveal_strlit("bigrat-floor");
    reveal_strlit("string-concat");
    reveal_strlit("replace");
    reveal_strlit("count-matches");
    reveal_strlit("i64-to-string");
    reveal_strlit("f64-to-string");
    reveal_strlit("bigint-to-string");
    reveal_strlit("bigint");
    reveal_strlit("from-string");
    reveal_strlit("bigrat");
    reveal_strlit("get-size!");
    reveal_strlit("bigint-add");
    reveal_strlit("bigint-sub");
    reveal_strlit("bigint-mul");
    reveal_strlit("bigint-div");
    reveal_strlit("bigint-rem");
    reveal_strlit("bigint-and");
    reveal_strlit("bigint-or");
    reveal_strlit("bigint-xor");
    reveal_strlit("bigint-min");
    reveal_strlit("bigint-max");
    reveal_strlit("bigrat-add");
    reveal_strlit("bigrat-sub");
    reveal_strlit("bigrat-mul");
    reveal_strlit("bigrat-div");
    reveal_strlit("bigrat-min");
    reveal_strlit("bigrat-max");
    reveal_strlit("bigrat-pow");
    reveal_strlit("bigrat-neg");
    reveal_strlit("bigrat-abs");
    assert("bigrat-floor"@.len() == 12);
}

proof fn named_bigrat_ceil(types: Seq<BaseTy>)
    requires
        types.contains(BaseTy::BigInt),
        types.contains(BaseTy::BigRat),
    ensures
        builtin_udf("bigrat-ceil"@, types) == Some(("__egglog_"@ + swapped("bigrat-ceil"@, '-', '_'), UdfKind::BigratUnary(BigratOp::Ceil))),
{
    reveal_strlit("bigrat-ceil");
    reveal_strlit("string-concat");
    reveal_strlit("replace");
    reveal_strlit("count-matches");
    reveal_strlit("i64-to-string");
    reveal_strlit("f64-to-string");
    reveal_strlit("bigint-to-string");
    reveal_strlit("bigint");
    reveal_strlit("from-string");
    reveal_strlit("bigrat");
    reveal_strlit("get-size!");
    reveal_strlit("bigint-add");
    reveal_strlit("bigint-sub");
    reveal_strlit("bigint-mul");
    reveal_strlit("bigint-div");
    reveal_strlit("bigint-rem");
    reveal_strlit("bigint-and");
    reveal_strlit("bigint-or");
    reveal_strlit("bigint-xor");
    reveal_strlit("bigint-min");
    reveal_strlit("bigint-max");
    reveal_strlit("bigrat-add");
    reveal_strlit("bigrat-sub");
    reveal_strlit("bigrat-mul");
    reveal_strlit("bigrat-div");
    reveal_strlit("bigrat-min");
    reveal_strlit("bigrat-max");
    reveal_strlit("bigrat-pow");
    reveal_strlit("bigrat-neg");
    reveal_strlit("bigrat-abs");
    reveal_strlit("bigrat-floor");
    assert("bigrat-ceil"@.len() == 11);
    assert("bigrat-ceil"@[0] == 'b' && "from-string"@[0] == 'f');
}

proof fn named_bigrat_round(types: Seq<BaseTy>)
    requires
        types.contains(BaseTy::BigInt),
        types.contains(BaseTy::BigRat),
    ensures
        builtin_udf("bigrat-round"@, types) == Some(("__egglog_"@ + swapped("bigrat-round"@, '-', '_'), UdfKind::BigratUnary(BigratOp::Round))),
{
    reveal_strlit("bigrat-round");
    reveal_strlit("string-concat");
    reveal_strlit("replace");
    reveal_strlit("count-matches");
    reveal_strlit("i64-to-string");
    reveal_strlit("f64-to-string");
    reveal_strlit("bigint-to-string");
    reveal_strlit("bigint");
    reveal_strlit("from-string");
    reveal_strlit("bigrat");
    reveal_strlit("get-size!");
    reveal_strlit("bigint-add");
    reveal_strlit("bigint-sub");
    reveal_strlit("bigint-mul");
    reveal_strlit("bigint-div");
    reveal_strlit("bigint-rem");
    reveal_strlit("bigint-and");
    reveal_strlit("bigint-or");
    reveal_strlit("bigint-xor");
    reveal_strlit("bigint-min");
    reveal_strlit("bigint-max");
    reveal_strlit("bigrat-add");
    reveal_strlit("bigrat-sub");
    reveal_strlit("bigrat-mul");
    reveal_strlit("bigrat-div");
    reveal_strlit("bigrat-min");
    reveal_strlit("bigrat-max");
    reveal_strlit("bigrat-pow");
    reveal_strlit("bigrat-neg");
    reveal_strlit("bigrat-abs");
    reveal_strlit("bigrat-floor");
    reveal_strlit("bigrat-ceil");
    assert("bigrat-round"@.len() == 12);
    assert("bigrat-round"@[7] == 'r' && "bigrat-floor"@[7] == 'f');
}

proof fn named_bigrat_sqrt(types: Seq<BaseTy>)
    requires
        types.contains(BaseTy::BigInt),
        types.contains(BaseTy::BigRat),
    ensures
        builtin_udf("bigrat-sqrt"@, types) == Some(("__egglog_"@ + swapped("bigrat-sqrt"@, '-', '_'), UdfKind::BigratUnary(BigratOp::Sqrt))),
{
    reveal_strlit("bigrat-sqrt");
    reveal_strlit("string-concat");
    reveal_strlit("replace");
    reveal_strlit("count-matches");
    reveal_strlit("i64-to-string");
    reveal_strlit("f64-to-string");
    reveal_strlit("bigint-to-string");
    reveal_strlit("bigint");
    reveal_strlit("from-string");
    reveal_strlit("bigrat");
    reveal_strlit("get-size!");
    reveal_strlit("bigint-add");
    reveal_strlit("bigint-sub");
    reveal_strlit("bigint-mul");
    reveal_strlit("bigint-div");
    reveal_strlit("bigint-rem");
    reveal_strlit("bigint-and");
    reveal_strlit("bigint-or");
    reveal_strlit("bigint-xor");
    reveal_strlit("bigint-min");
    reveal_strlit("bigint-max");
    reveal_strlit("bigrat-add");
    reveal_strlit("bigrat-sub");
    reveal_strlit("bigrat-mul");
    reveal_strlit("bigrat-div");
    reveal_strlit("bigrat-min");
    reveal_strlit("bigrat-max");
    reveal_strlit("bigrat-pow");
    reveal_strlit("bigrat-neg");
    reveal_strlit("bigrat-abs");
    reveal_strlit("bigrat-floor");
    reveal_strlit("bigrat-ceil");
    reveal_strlit("bigrat-round");
    assert("bigrat-sqrt"@.len() == 11);
    assert("bigrat-sqrt"@[0] == 'b' && "from-string"@[0] == 'f');
    assert("bigrat-sqrt"@[7] == 's' && "bigrat-ceil"@[7] == 'c');
}

proof fn named_bigrat_log(types: Seq<BaseTy>)
    requires
        types.contains(BaseTy::BigInt),
        types.contains(BaseTy::BigRat),
    ensures
        builtin_udf("bigrat-log"@, types) == Some(("__egglog_"@ + swapped("bigrat-log"@, '-', '_'), UdfKind::BigratUnary(BigratOp::Log))),
{
    reveal_strlit("bigrat-log");
    reveal_strlit("string-concat");
    reveal_strlit("replace");
    reveal_strlit("count-matches");
    reveal_strlit("i64-to-string");
    reveal_strlit("f64-to-string");
    reveal_strlit("bigint-to-string");
    reveal_strlit("bigint");
    reveal_strlit("from-string");
    reveal_strlit("bigrat");
    reveal_strlit("get-size!");
    reveal_strlit("bigint-add");
    reveal_strlit("bigint-sub");
    reveal_strlit("bigint-mul");
    reveal_strlit("bigint-div");
    reveal_strlit("bigint-rem");
    reveal_strlit("bigint-and");
    reveal_strlit("bigint-or");
    reveal_strlit("bigint-xor");
    reveal_strlit("bigint-min");
    reveal_strlit("bigint-max");
    reveal_strlit("bigrat-add");
    reveal_strlit("bigrat-sub");
    reveal_strlit("bigrat-mul");
    reveal_strlit("bigrat-div");
    reveal_strlit("bigrat-min");
    reveal_strlit("bigrat-max");
    reveal_strlit("bigrat-pow");
    reveal_strlit("bigrat-neg");
    reveal_strlit("bigrat-abs");
    reveal_strlit("bigrat-floor");
    reveal_strlit("bigrat-ceil");
    reveal_strlit("bigrat-round");
    reveal_strlit("bigrat-sqrt");
    assert("bigrat-log"@.len() == 10);
    assert("bigrat-log"@[3] == 'r' && "bigint-add"@[3] == 'i');
    assert("bigrat-log"@[3] == 'r' && "bigint-sub"@[3] == 'i');
    assert("bigrat-log"@[3] == 'r' && "bigint-mul"@[3] == 'i');
    assert("bigrat-log"@[3] == 'r' && "bigint-div"@[3] == 'i');
    assert("bigrat-log"@[3] == 'r' && "bigint-rem"@[3] == 'i');
    assert("bigrat-log"@[3] == 'r' && "bigint-and"@[3] == 'i');
    assert("bigrat-log"@[3] == 'r' && "bigint-xor"@[3] == 'i');
    assert("bigrat-log"@[3] == 'r' && "bigint-min"@[3] == 'i');
    assert("bigrat-log"@[3] == 'r' && "bigint-max"@[3] == 'i');
    assert("bigrat-log"@[7] == 'l' && "bigrat-add"@[7] == 'a');
    assert("bigrat-log"@[7] == 'l' && "bigrat-sub"@[7] == 's');
    assert("bigrat-log"@[7] == 'l' && "bigrat-mul"@[7] == 'm');
    assert("bigrat-log"@[7] == 'l' && "bigrat-div"@[7] == 'd');
    assert("bigrat-log"@[7] == 'l' && "bigrat-min"@[7] == 'm');
    assert("bigrat-log"@[7] == 'l' && "bigrat-max"@[7] == 'm');
    assert("bigrat-log"@[7] == 'l' && "bigrat-pow"@[7] == 'p');
    assert("bigrat-log"@[7] == 'l' && "bigrat-neg"@[7] == 'n');
    assert("bigrat-log"@[7] == 'l' && "bigrat-abs"@[7] == 'a');
}

proof fn named_bigrat_cbrt(types: Seq<BaseTy>)
    requires
        types.contains(BaseTy::BigInt),
        types.contains(BaseTy::BigRat),
    ensures
        builtin_udf("bigrat-cbrt"@, types) == Some(("__egglog_"@ + swapped("bigrat-cbrt"@, '-', '_'), UdfKind::BigratUnary(BigratOp::Cbrt))),
{
    reveal_strlit("bigrat-cbrt");
    reveal_strlit("string-concat");
    reveal_strlit("replace");
    reveal_strlit("count-matches");
    reveal_strlit("i64-to-string");
    reveal_strlit("f64-to-string");
    reveal_strlit("bigint-to-string");
    reveal_strlit("bigint");
    reveal_strlit("from-string");
    reveal_strlit("bigrat");
    reveal_strlit("get-size!");
    reveal_strlit("bigint-add");
    reveal_strlit("bigint-sub");
    reveal_strlit("bigint-mul");
    reveal_strlit("bigint-div");
    reveal_strlit("bigint-rem");
    reveal_strlit("bigint-and");
    reveal_strlit("bigint-or");
    reveal_strlit("bigint-xor");
    reveal_strlit("bigint-min");
    reveal_strlit("bigint-max");
    reveal_strlit("bigrat-add");
    reveal_strlit("bigrat-sub");
    reveal_strlit("bigrat-mul");
    reveal_strlit("bigrat-div");
    reveal_strlit("bigrat-min");
    reveal_strlit("bigrat-max");
    reveal_strlit("bigrat-pow");
    reveal_strlit("bigrat-neg");
    reveal_strlit("bigrat-abs");
    reveal_strlit("bigrat-floor");
    reveal_strlit("bigrat-ceil");
    reveal_strlit("bigrat-round");
    reveal_strlit("bigrat-sqrt");
    reveal_strlit("bigrat-log");
    assert("bigrat-cbrt"@.len() == 11);
    assert("bigrat-cbrt"@[0] == 'b' && "from-string"@[0] == 'f');
    assert("bigrat-cbrt"@[8] == 'b' && "bigrat-ceil"@[8] == 'e');
    assert("bigrat-cbrt"@[7] == 'c' && "bigrat-sqrt"@[7] == 's');
}

proof fn named_bigrat_lt(types: Seq<BaseTy>)
    requires
        types.contains(BaseTy::BigInt),
        types.contains(BaseTy::BigRat),
    ensures
        builtin_udf("bigrat-lt"@, types) == Some(("__egglog_"@ + swapped("bigrat-lt"@, '-', '_'), UdfKind::BigratOrder(BigratOp::Lt))),
{
    reveal_strlit("bigrat-lt");
    reveal_strlit("string-concat");
    reveal_strlit("replace");
    reveal_strlit("count-matches");
    reveal_strlit("i64-to-string");
    reveal_strlit("f64-to-string");
    reveal_strlit("bigint-to-string");
    reveal_strlit("bigint");
    reveal_strlit("from-string");
    reveal_strlit("bigrat");
    reveal_strlit("get-size!");
    reveal_strlit("bigint-add");
    reveal_strlit("bigint-sub");
    reveal_strlit("bigint-mul");
    reveal_strlit("bigint-div");
    reveal_strlit("bigint-rem");
    reveal_strlit("bigint-and");
    reveal_strlit("bigint-or");
    reveal_strlit("bigint-xor");
    reveal_strlit("bigint-min");
    reveal_strlit("bigint-max");
    reveal_strlit("bigrat-add");
    reveal_strlit("bigrat-sub");
    reveal_strlit("bigrat-mul");
    reveal_strlit("bigrat-div");
    reveal_strlit("bigrat-min");
    reveal_strlit("bigrat-max");
    reveal_strlit("bigrat-pow");
    reveal_strlit("bigrat-neg");
    reveal_strlit("bigrat-abs");
    reveal_strlit("bigrat-floor");
    reveal_strlit("bigrat-ceil");
    reveal_strlit("bigrat-round");
    reveal_strlit("bigrat-sqrt");
    reveal_strlit("bigrat-log");
    reveal_strlit("bigrat-cbrt");
    assert("bigrat-lt"@.len() == 9);
    assert("bigrat-lt"@[0] == 'b' && "get-size!"@[0] == 'g');
    assert("bigrat-lt"@[3] == 'r' && "bigint-or"@[3] == 'i');
}

proof fn named_bigrat_gt(types: Seq<BaseTy>)
    requires
        types.contains(BaseTy::BigInt),
        types.contains(BaseTy::BigRat),
    ensures
        builtin_udf("bigrat-gt"@, types) == Some(("__egglog_"@ + swapped("bigrat-gt"@, '-', '_'), UdfKind::BigratOrder(BigratOp::Gt))),
{
    reveal_strlit("bigrat-gt");
    reveal_strlit("string-concat");
    reveal_strlit("replace");
    reveal_strlit("count-matches");
    reveal_strlit("i64-to-string");
    reveal_strlit("f64-to-string");
    reveal_strlit("bigint-to-string");
    reveal_strlit("bigint");
    reveal_strlit("from-string");
    reveal_strlit("bigrat");
    reveal_strlit("get-size!");
    reveal_strlit("bigint-add");
    reveal_strlit("bigint-sub");
    reveal_strlit("bigint-mul");
    reveal_strlit("bigint-div");
    reveal_strlit("bigint-rem");
    reveal_strlit("bigint-and");
    reveal_strlit("bigint-or");
    reveal_strlit("bigint-xor");
    reveal_strlit("bigint-min");
    reveal_strlit("bigint-max");
    reveal_strlit("bigrat-add");
    reveal_strlit("bigrat-sub");
    reveal_strlit("bigrat-mul");
    reveal_strlit("bigrat-div");
    reveal_strlit("bigrat-min");
    reveal_strlit("bigrat-max");
    reveal_strlit("bigrat-pow");
    reveal_strlit("bigrat-neg");
    reveal_strlit("bigrat-abs");
    reveal_strlit("bigrat-floor");
    reveal_strlit("bigrat-ceil");
    reveal_strlit("bigrat-round");
    reveal_strlit("bigrat-sqrt");
    reveal_strlit("bigrat-log");
    reveal_strlit("bigrat-cbrt");
    reveal_strlit("bigrat-lt");
    assert("bigrat-gt"@.len() == 9);
    assert("bigrat-gt"@[0] == 'b' && "get-size!"@[0] == 'g');
    assert("bigrat-gt"@[3] == 'r' && "bigint-or"@[3] == 'i');
    assert("bigrat-gt"@[7] == 'g' && "bigrat-lt"@[7] == 'l');
}

proof fn named_bigrat_le(types: Seq<BaseTy>)
    requires
        types.contains(BaseTy::BigInt),
        types.contains(BaseTy::BigRat),
    ensures
        builtin_udf("bigrat-le"@, types) == Some(("__egglog_"@ + swapped("bigrat-le"@, '-', '_'), UdfKind::BigratOrder(BigratOp::Le))),
{
    reveal_strlit("bigrat-le");
    reveal_strlit("string-concat");
    reveal_strlit("replace");
    reveal_strlit("count-matches");
    reveal_strlit("i64-to-string");
    reveal_strlit("f64-to-string");
    reveal_strlit("bigint-to-string");
    reveal_strlit("bigint");
    reveal_strlit("from-string");
    reveal_strlit("bigrat");
    reveal_strlit("get-size!");
    reveal_strlit("bigint-add");
    reveal_strlit("bigint-sub");
    reveal_strlit("bigint-mul");
    reveal_strlit("bigint-div");
    reveal_strlit("bigint-rem");
    reveal_strlit("bigint-and");
    reveal_strlit("bigint-or");
    reveal_strlit("bigint-xor");
    reveal_strlit("bigint-min");
    reveal_strlit("bigint-max");
    reveal_strlit("bigrat-add");
    reveal_strlit("bigrat-sub");
    reveal_strlit("bigrat-mul");
    reveal_strlit("bigrat-div");
    reveal_strlit("bigrat-min");
    reveal_strlit("bigrat-max");
    reveal_strlit("bigrat-pow");
    reveal_strlit("bigrat-neg");
    reveal_strlit("bigrat-abs");
    reveal_strlit("bigrat-floor");
    reveal_strlit("bigrat-ceil");
    reveal_strlit("bigrat-round");
    reveal_strlit("bigrat-sqrt");
    reveal_strlit("bigrat-log");
    reveal_strlit("bigrat-cbrt");
    reveal_strlit("bigrat-lt");
    reveal_strlit("bigrat-gt");
    assert("bigrat-le"@.len() == 9);
    assert("bigrat-le"@[0] == 'b' && "get-size!"@[0] == 'g');
    assert("bigrat-le"@[3] == 'r' && "bigint-or"@[3] == 'i');
    assert("bigrat-le"@[8] == 'e' && "bigrat-lt"@[8] == 't');
    assert("bigrat-le"@[7] == 'l' && "bigrat-gt"@[7] == 'g');
}

proof fn named_bigrat_ge(types: Seq<BaseTy>)
    requires
        types.contains(BaseTy::BigInt),
        types.contains(BaseTy::BigRat),
    ensures
        builtin_udf("bigrat-ge"@, types) == Some(("__egglog_"@ + swapped("bigrat-ge"@, '-', '_'), UdfKind::BigratOrder(BigratOp::Ge))),
{
    reveal_strlit("bigrat-ge");
    reveal_strlit("string-concat");
    reveal_strlit("replace");
    reveal_strlit("count-matches");
    reveal_strlit("i64-to-string");
    reveal_strlit("f64-to-string");
    reveal_strlit("bigint-to-string");
    reveal_strlit("bigint");
    reveal_strlit("from-string");
    reveal_strlit("bigrat");
    reveal_strlit("get-size!");
    reveal_strlit("bigint-add");
    reveal_strlit("bigint-sub");
    reveal_strlit("bigint-mul");
    reveal_strlit("bigint-div");
    reveal_strlit("bigint-rem");
    reveal_strlit("bigint-and");
    reveal_strlit("bigint-or");
    reveal_strlit("bigint-xor");
    reveal_strlit("bigint-min");
    reveal_strlit("bigint-max");
    reveal_strlit("bigrat-add");
    reveal_strlit("bigrat-sub");
    reveal_strlit("bigrat-mul");
    reveal_strlit("bigrat-div");
    reveal_strlit("bigrat-min");
    reveal_strlit("bigrat-max");
    reveal_strlit("bigrat-pow");
    reveal_strlit("bigrat-neg");
    reveal_strlit("bigrat-abs");
    reveal_strlit("bigrat-floor");
    reveal_strlit("bigrat-ceil");
    reveal_strlit("bigrat-round");
    reveal_strlit("bigrat-sqrt");
    reveal_strlit("bigrat-log");
    reveal_strlit("bigrat-cbrt");
    reveal_strlit("bigrat-lt");
    reveal_strlit("bigrat-gt");
    reveal_strlit("bigrat-le");
    assert("bigrat-ge"@.len() == 9);
    assert("bigrat-ge"@[0] == 'b' && "get-size!"@[0] == 'g');
    assert("bigrat-ge"@[3] == 'r' && "bigint-or"@[3] == 'i');
    assert("bigrat-ge"@[7] == 'g' && "bigrat-lt"@[7] == 'l');
    assert("bigrat-ge"@[8] == 'e' && "bigrat-gt"@[8] == 't');
    assert("bigrat-ge"@[7] == 'g' && "bigrat-le"@[7] == 'l');
}

proof fn named_bigrat_numer(types: Seq<BaseTy>)
    requires
        types.contains(BaseTy::BigInt),
        types.contains(BaseTy::BigRat),
    ensures
        builtin_udf("bigrat-numer"@, types) == Some(("__egglog_"@ + swapped("bigrat-numer"@, '-', '_'), UdfKind::BigratSide(BigratOp::Numer))),
{
    reveal_strlit("bigrat-numer");
    reveal_strlit("string-concat");
    reveal_strlit("replace");
    reveal_strlit("count-matches");
    reveal_strlit("i64-to-string");
    reveal_strlit("f64-to-string");
    reveal_strlit("bigint-to-string");
    reveal_strlit("bigint");
    reveal_strlit("from-string");
    reveal_strlit("bigrat");
    reveal_strlit("get-size!");
    reveal_strlit("bigint-add");
    reveal_strlit("bigint-sub");
    reveal_strlit("bigint-mul");
    reveal_strlit("bigint-div");
    reveal_strlit("bigint-rem");
    reveal_strlit("bigint-and");
    reveal_strlit("bigint-or");
    reveal_strlit("bigint-xor");
    reveal_strlit("bigint-min");
    reveal_strlit("bigint-max");
    reveal_strlit("bigrat-add");
    reveal_strlit("bigrat-sub");
    reveal_strlit("bigrat-mul");
    reveal_strlit("bigrat-div");
    reveal_strlit("bigrat-min");
    reveal_strlit("bigrat-max");
    reveal_strlit("bigrat-pow");
    reveal_strlit("bigrat-neg");
    reveal_strlit("bigrat-abs");
    reveal_strlit("bigrat-floor");
    reveal_strlit("bigrat-ceil");
    reveal_strlit("bigrat-round");
    reveal_strlit("bigrat-sqrt");
    reveal_strlit("bigrat-log");
    reveal_strlit("bigrat-cbrt");
    reveal_strlit("bigrat-lt");
    reveal_strlit("bigrat-gt");
    reveal_strlit("bigrat-le");
    reveal_strlit("bigrat-ge");
    assert("bigrat-numer"@.len() == 12);
    assert("bigrat-numer"@[7] == 'n' && "bigrat-floor"@[7] == 'f');
    assert("bigrat-numer"@[7] == 'n' && "bigrat-round"@[7] == 'r');
}

proof fn named_bigrat_denom(types: Seq<BaseTy>)
    requires
        types.contains(BaseTy::BigInt),
        types.contains(BaseTy::BigRat),
    ensures
        builtin_udf("bigrat-denom"@, types) == Some(("__egglog_"@ + swapped("bigrat-denom"@, '-', '_'), UdfKind::BigratSide(BigratOp::Denom))),
{
    reveal_strlit("bigrat-denom");
    reveal_strlit("string-concat");
    reveal_strlit("replace");
    reveal_strlit("count-matches");
    reveal_strlit("i64-to-string");
    reveal_strlit("f64-to-string");
    reveal_strlit("bigint-to-string");
    reveal_strlit("bigint");
    reveal_strlit("from-string");
    reveal_strlit("bigrat");
    reveal_strlit("get-size!");
    reveal_strlit("bigint-add");
    reveal_strlit("bigint-sub");
    reveal_strlit("bigint-mul");
    reveal_strlit("bigint-div");
    reveal_strlit("bigint-rem");
    reveal_strlit("bigint-and");
    reveal_strlit("bigint-or");
    reveal_strlit("bigint-xor");
    reveal_strlit("bigint-min");
    reveal_strlit("bigint-max");
    reveal_strlit("bigrat-add");
    reveal_strlit("bigrat-sub");
    reveal_strlit("bigrat-mul");
    reveal_strlit("bigrat-div");
    reveal_strlit("bigrat-min");
    reveal_strlit("bigrat-max");
    reveal_strlit("bigrat-pow");
    reveal_strlit("bigrat-neg");
    reveal_strlit("bigrat-abs");
    reveal_strlit("bigrat-floor");
    reveal_strlit("bigrat-ceil");
    reveal_strlit("bigrat-round");
    reveal_strlit("bigrat-sqrt");
    reveal_strlit("bigrat-log");
    reveal_strlit("bigrat-cbrt");
    reveal_strlit("bigrat-lt");
    reveal_strlit("bigrat-gt");
    reveal_strlit("bigrat-le");
    reveal_strlit("bigrat-ge");
    reveal_strlit("bigrat-numer");
    assert("bigrat-denom"@.len() == 12);
    assert("bigrat-denom"@[7] == 'd' && "bigrat-floor"@[7] == 'f');
    assert("bigrat-denom"@[7] == 'd' && "bigrat-round"@[7] == 'r');
    assert("bigrat-denom"@[7] == 'd' && "bigrat-numer"@[7] == 'n');
}

proof fn named_bigrat_to_f64(types: Seq<BaseTy>)
    requires
        types.contains(BaseTy::BigInt),
        types.contains(BaseTy::BigRat),
    ensures
        builtin_udf("bigrat-to-f64"@, types) == Some(("__egglog_"@ + swapped("bigrat-to-f64"@, '-', '_'), UdfKind::BigratToF64)),
{
    reveal_strlit("bigrat-to-f64");
    reveal_strlit("string-concat");
    reveal_strlit("replace");
    reveal_strlit("count-matches");
    reveal_strlit("i64-to-string");
    reveal_strlit("f64-to-string");
    reveal_strlit("bigint-to-string");
    reveal_strlit("bigint");
    reveal_strlit("from-string");
    reveal_strlit("bigrat");
    reveal_strlit("get-size!");
    reveal_strlit("bigint-add");
    reveal_strlit("bigint-sub");
    reveal_strlit("bigint-mul");
    reveal_strlit("bigint-div");
    reveal_strlit("bigint-rem");
    reveal_strlit("bigint-and");
    reveal_strlit("bigint-or");
    reveal_strlit("bigint-xor");
    reveal_strlit("bigint-min");
    reveal_strlit("bigint-max");
    reveal_strlit("bigrat-add");
    reveal_strlit("bigrat-sub");
    reveal_strlit("bigrat-mul");
    reveal_strlit("bigrat-div");
    reveal_strlit("bigrat-min");
    reveal_strlit("bigrat-max");
    reveal_strlit("bigrat-pow");
    reveal_strlit("bigrat-neg");
    reveal_strlit("bigrat-abs");
    reveal_strlit("bigrat-floor");
    reveal_strlit("bigrat-ceil");
    reveal_strlit("bigrat-round");
    reveal_strlit("bigrat-sqrt");
    reveal_strlit("bigrat-log");
    reveal_strlit("bigrat-cbrt");
    reveal_strlit("bigrat-lt");
    reveal_strlit("bigrat-gt");
    reveal_strlit("bigrat-le");
    reveal_strlit("bigrat-ge");
    reveal_strlit("bigrat-numer");
    reveal_strlit("bigrat-denom");
    assert("bigrat-to-f64"@.len() == 13);
    assert("bigrat-to-f64"@[0] == 'b' && "string-concat"@[0] == 's');
    assert("bigrat-to-f64"@[0] == 'b' && "count-matches"@[0] == 'c');
    assert("bigrat-to-f64"@[0] == 'b' && "i64-to-string"@[0] == 'i');
    assert("bigrat-to-f64"@[0] == 'b' && "f64-to-string"@[0] == 'f');
}

/// Whether a handle stands for the integer `z`.
pub open spec fn is_int(p: PoolState, raw: i64, z: int) -> bool {
    0 <= handle(raw) < p.ints.len() && p.ints[handle(raw) as int] == z
}

/// Whether a handle stands for the fraction `q`.
pub open spec fn is_rat(p: PoolState, raw: i64, q: (int, int)) -> bool {
    0 <= handle(raw) < p.rats.len() && p.rats[handle(raw) as int] == q
}

proof fn lemma_with_int(p: PoolState, z: int)
    requires
        p.ints.len() < u32::MAX,
    ensures
        with_int(p, z).1 is Some,
        is_int(with_int(p, z).0, with_int(p, z).1->0, z),
{
    interning_gives_back(p.ints, z);
}

proof fn lemma_with_rat(p: PoolState, q: (int, int))
    requires
        p.rats.len() < u32::MAX,
    ensures
        with_rat(p, q).1 is Some,
        is_rat(with_rat(p, q).0, with_rat(p, q).1->0, q),
{
    interning_gives_back(p.rats, q);
}

/// Division that cuts off: what is left of the dividend is smaller than the divisor and has the
/// dividend's sign.
proof fn lemma_quotient(a: int, b: int)
    requires
        b != 0,
    ensures
        ({
            let q = quotient(a, b);
            let r = a - b * q;
            &&& abs(r) < abs(b)
            &&& a >= 0 ==> r >= 0
            &&& a <= 0 ==> r <= 0
        }),
{
    let q = quotient(a, b);
    if a >= 0 && b > 0 {
        vstd::arithmetic::div_mod::lemma_fundamental_div_mod(a, b);
        vstd::arithmetic::div_mod::lemma_mod_bound(a, b);
    } else if a >= 0 {
        vstd::arithmetic::div_mod::lemma_fundamental_div_mod(a, -b);
        vstd::arithmetic::div_mod::lemma_mod_bound(a, -b);
        assert(b * -(a / -b) == -b * (a / -b)) by (nonlinear_arith);
    } else if b > 0 {
        vstd::arithmetic::div_mod::lemma_fundamental_div_mod(-a, b);
        vstd::arithmetic::div_mod::lemma_mod_bound(-a, b);
        assert(b * -(-a / b) == -(b * (-a / b))) by (nonlinear_arith);
    } else {
        vstd::arithmetic::div_mod::lemma_fundamental_div_mod(-a, -b);
        vstd::arithmetic::div_mod::lemma_mod_bound(-a, -b);
        assert(b * (-a / -b) == -(-b * (-a / -b))) by (nonlinear_arith);
    }
}

/// What the function of an integer primitive gives is said by the primitive's name: for handles of
/// `x` and `y`, a handle of their sum, difference, product, quotient, remainder, bits or bound.
pub proof fn integer_primitives_do_what_they_are_named(
    p: PoolState,
    name: Seq<char>,
    udf: Seq<char>,
    op: BigintOp,
    a: i64,
    b: i64,
    x: int,
    y: int,
    p2: PoolState,
    r: Option<i64>,
)
    requires
        p.types.contains(BaseTy::BigInt),
        p.ints.len() < u32::MAX,
        builtin_udf(name, p.types) == Some((udf, UdfKind::BigintBinary(op))),
        is_int(p, a, x),
        is_int(p, b, y),
        bigint_binary_result(p, op, a, b, p2, r),
    ensures
        name == "bigint-add"@ ==> r is Some && is_int(p2, r->0, x + y),
        name == "bigint-sub"@ ==> r is Some && is_int(p2, r->0, x - y),
        name == "bigint-mul"@ ==> r is Some && is_int(p2, r->0, x * y),
        name == "bigint-div"@ ==> (r is None <==> y == 0) && (r is Some ==> exists|z: int, rest: int|
            is_int(p2, r->0, z) && #[trigger] (z * y) + rest == x && #[trigger] abs(rest) < abs(y)
                && (x >= 0 ==> rest >= 0) && (x <= 0 ==> rest <= 0)),
        name == "bigint-rem"@ ==> (r is None <==> y == 0) && (r is Some ==> exists|z: int, rest: int|
            is_int(p2, r->0, rest) && #[trigger] (z * y) + rest == x && #[trigger] abs(rest) < abs(
                y,
            ) && (x >= 0 ==> rest >= 0) && (x <= 0 ==> rest <= 0)),
        name == "bigint-and"@ ==> r is Some && exists|z: int| #[trigger]
            is_int(p2, r->0, z) && forall|i: nat|
                #![trigger pow2(i)]
                ((z / pow2(i) as int) % 2 == 1) == ((x / pow2(i) as int) % 2 == 1 && (y / pow2(
                    i,
                ) as int) % 2 == 1),
        name == "bigint-or"@ ==> r is Some && exists|z: int| #[trigger]
            is_int(p2, r->0, z) && forall|i: nat|
                #![trigger pow2(i)]
                ((z / pow2(i) as int) % 2 == 1) == ((x / pow2(i) as int) % 2 == 1 || (y / pow2(
                    i,
                ) as int) % 2 == 1),
        name == "bigint-xor"@ ==> r is Some && exists|z: int| #[trigger]
            is_int(p2, r->0, z) && forall|i: nat|
                #![trigger pow2(i)]
                ((z / pow2(i) as int) % 2 == 1) == ((x / pow2(i) as int) % 2 != (y / pow2(
                    i,
                ) as int) % 2),
        name == "bigint-min"@ ==> r is Some && exists|z: int| #[trigger]
            is_int(p2, r->0, z) && z <= x && z <= y && (z == x || z == y),
        name == "bigint-max"@ ==> r is Some && exists|z: int| #[trigger]
            is_int(p2, r->0, z) && z >= x && z >= y && (z == x || z == y),
{
    let t = p.types;
    let o = choose|o: Option<int>| #[trigger]
        bigint_result(op, x, y, o) && match o {
            Some(n) => (p2, r) == with_int(p, n),
            None => p2 == p && r is None,
        };
    if o is Some {
        lemma_with_int(p, o->0);
    }
    if name == "bigint-add"@ {
        named_bigint_add(t);
    }
    if name == "bigint-sub"@ {
        named_bigint_sub(t);
    }
    if name == "bigint-mul"@ {
        named_bigint_mul(t);
    }
    if name == "bigint-div"@ {
        named_bigint_div(t);
        if y != 0 {
            lemma_quotient(x, y);
            let z = quotient(x, y);
            let rest = x - y * z;
            assert(z * y == y * z) by (nonlinear_arith);
            assert(is_int(p2, r->0, z) && (z * y) + rest == x && abs(rest) < abs(y));
        }
    }
    if name == "bigint-rem"@ {
        named_bigint_rem(t);
        if y != 0 {
            lemma_quotient(x, y);
            let z = quotient(x, y);
            let rest = x - y * z;
            assert(z * y == y * z) by (nonlinear_arith);
            assert(is_int(p2, r->0, rest) && (z * y) + rest == x && abs(rest) < abs(y));
        }
    }
    if name == "bigint-and"@ {
        named_bigint_and(t);
        let z = o->0;
        assert forall|i: nat|
            #![trigger pow2(i)]
            ((z / pow2(i) as int) % 2 == 1) == ((x / pow2(i) as int) % 2 == 1 && (y / pow2(
                i,
            ) as int) % 2 == 1) by {
            assert(bit(z, i) == (bit(x, i) && bit(y, i)));
        }
        assert(is_int(p2, r->0, z));
    }
    if name == "bigint-or"@ {
        named_bigint_or(t);
        let z = o->0;
        assert forall|i: nat|
            #![trigger pow2(i)]
            ((z / pow2(i) as int) % 2 == 1) == ((x / pow2(i) as int) % 2 == 1 || (y / pow2(
                i,
            ) as int) % 2 == 1) by {
            assert(bit(z, i) == (bit(x, i) || bit(y, i)));
        }
        assert(is_int(p2, r->0, z));
    }
    if name == "bigint-xor"@ {
        named_bigint_xor(t);
        let z = o->0;
        assert forall|i: nat|
            #![trigger pow2(i)]
            ((z / pow2(i) as int) % 2 == 1) == ((x / pow2(i) as int) % 2 != (y / pow2(i) as int)
                % 2) by {
            assert(bit(z, i) == (bit(x, i) != bit(y, i)));
            vstd::arithmetic::div_mod::lemma_mod_bound(x / pow2(i) as int, 2);
            vstd::arithmetic::div_mod::lemma_mod_bound(y / pow2(i) as int, 2);
        }
        assert(is_int(p2, r->0, z));
    }
    if name == "bigint-min"@ {
        named_bigint_min(t);
        assert(is_int(p2, r->0, o->0));
    }
    if name == "bigint-max"@ {
        named_bigint_max(t);
        assert(is_int(p2, r->0, o->0));
    }
}

proof fn lemma_gcd_divides(a: nat, b: nat)
    requires
        a > 0 || b > 0,
    ensures
        gcd(a, b) > 0,
        a % gcd(a, b) == 0,
        b % gcd(a, b) == 0,
    decreases b,
{
    if b == 0 {
        assert(a as int % a as int == 0) by (nonlinear_arith)
            requires
                a > 0,
        ;
    } else {
        let c = (a % b) as nat;
        lemma_gcd_divides(b, c);
        let g = gcd(b, c) as int;
        let x = b as int;
        let y = c as int;
        vstd::arithmetic::div_mod::lemma_fundamental_div_mod(a as int, x);
        vstd::arithmetic::div_mod::lemma_fundamental_div_mod(x, g);
        vstd::arithmetic::div_mod::lemma_fundamental_div_mod(y, g);
        let k = x / g;
        let m = y / g;
        let t = a as int / x;
        assert(a as int == g * (k * t + m)) by (nonlinear_arith)
            requires
                a as int == x * t + y,
                x == g * k,
                y == g * m,
        ;
        vstd::arithmetic::div_mod::lemma_mod_multiples_basic(k * t + m, g);
        assert((k * t + m) * g == g * (k * t + m)) by (nonlinear_arith);
    }
}

/// The fraction in lowest terms is the same number, with a positive denominator.
/// A fraction in lowest terms stands for the quotient, with a denominator above zero.
pub proof fn lowest_terms_keep_the_quotient(n: int, d: int)
    requires
        d != 0,
    ensures
        lowest(n, d).1 > 0,
        lowest(n, d).0 * d == n * lowest(n, d).1,
{
    let g = gcd(abs(n), abs(d)) as int;
    lemma_gcd_divides(abs(n), abs(d));
    let s = if d < 0 {
        -n
    } else {
        n
    };
    let e = abs(d) as int;
    assert(s % g == 0) by {
        vstd::arithmetic::div_mod::lemma_fundamental_div_mod(abs(n) as int, g);
        let k = abs(n) as int / g;
        if s == abs(n) {
        } else {
            assert(s == -k * g) by (nonlinear_arith)
                requires
                    abs(n) as int == g * k,
                    s == -(abs(n) as int),
            ;
            vstd::arithmetic::div_mod::lemma_mod_multiples_basic(-k, g);
        }
    }
    vstd::arithmetic::div_mod::lemma_fundamental_div_mod(s, g);
    vstd::arithmetic::div_mod::lemma_fundamental_div_mod(e, g);
    let u = s / g;
    let v = e / g;
    assert(v > 0) by (nonlinear_arith)
        requires
            e == g * v,
            e > 0,
            g > 0,
    ;
    assert(u * e == s * v) by (nonlinear_arith)
        requires
            s == g * u,
            e == g * v,
    ;
    if d < 0 {
        assert(u * d == n * v) by (nonlinear_arith)
            requires
                u * e == s * v,
                d == -e,
                s == -n,
        ;
    }
}

/// Whether the fraction `q` is no larger than the fraction `a`.
pub open spec fn at_most(q: (int, int), a: (int, int)) -> bool {
    q.0 * a.1 <= a.0 * q.1
}

/// What the function of a primitive on two fractions gives is said by the primitive's name.
pub proof fn fraction_primitives_do_what_they_are_named(
    p: PoolState,
    name: Seq<char>,
    udf: Seq<char>,
    op: BigratOp,
    ra: i64,
    rb: i64,
    a: (int, int),
    b: (int, int),
    p2: PoolState,
    r: Option<i64>,
)
    requires
        p.types.contains(BaseTy::BigInt),
        p.types.contains(BaseTy::BigRat),
        p.rats.len() < u32::MAX,
        builtin_udf(name, p.types) == Some((udf, UdfKind::BigratBinary(op))),
        is_rat(p, ra, a),
        is_rat(p, rb, b),
        a.1 > 0,
        b.1 > 0,
        bigrat_q_result(p, op, seq![ra, rb]) == (p2, r),
    ensures
        name == "bigrat-add"@ ==> r is Some && exists|q: (int, int)| #[trigger]
            is_rat(p2, r->0, q) && q.1 > 0 && q.0 * (a.1 * b.1) == (a.0 * b.1 + b.0 * a.1) * q.1,
        name == "bigrat-sub"@ ==> r is Some && exists|q: (int, int)| #[trigger]
            is_rat(p2, r->0, q) && q.1 > 0 && q.0 * (a.1 * b.1) == (a.0 * b.1 - b.0 * a.1) * q.1,
        name == "bigrat-mul"@ ==> r is Some && exists|q: (int, int)| #[trigger]
            is_rat(p2, r->0, q) && q.1 > 0 && q.0 * (a.1 * b.1) == (a.0 * b.0) * q.1,
        name == "bigrat-div"@ ==> (r is None <==> b.0 == 0) && (r is Some ==> exists|q: (int, int)|
         #[trigger]
            is_rat(p2, r->0, q) && q.1 > 0 && q.0 * (a.1 * b.0) == (a.0 * b.1) * q.1),
        name == "bigrat-min"@ ==> r is Some && exists|q: (int, int)| #[trigger]
            is_rat(p2, r->0, q) && (q == a || q == b) && at_most(q, a) && at_most(q, b),
        name == "bigrat-max"@ ==> r is Some && exists|q: (int, int)| #[trigger]
            is_rat(p2, r->0, q) && (q == a || q == b) && at_most(a, q) && at_most(b, q),
        name == "bigrat-pow"@ && b.1 != 1 ==> r is None,
        name == "bigrat-pow"@ && b.1 == 1 && 0 <= b.0 <= i64::MAX && a.0 != 0 ==> r is Some && is_rat(
            p2,
            r->0,
            (pow(a.0, b.0 as nat), pow(a.1, b.0 as nat)),
        ),
        name == "bigrat-pow"@ && b.1 == 1 && b.0 == 0 ==> r is Some && is_rat(p2, r->0, (1, 1)),
        name == "bigrat-pow"@ && b.1 == 1 && b.0 > 0 && a.0 == 0 ==> r is Some && is_rat(
            p2,
            r->0,
            (0, 1),
        ),
        name == "bigrat-pow"@ && b.1 == 1 && b.0 < 0 && a.0 == 0 ==> r is None,
        name == "bigrat-pow"@ && b.1 == 1 && -i64::MAX <= b.0 < 0 && a.0 > 0 ==> r is Some && is_rat(
            p2,
            r->0,
            (pow(a.1, (-b.0) as nat), pow(a.0, (-b.0) as nat)),
        ),
        name == "bigrat-pow"@ && b.1 == 1 && -i64::MAX <= b.0 < 0 && a.0 < 0 ==> r is Some && is_rat(
            p2,
            r->0,
            (pow(-a.1, (-b.0) as nat), pow(-a.0, (-b.0) as nat)),
        ),
{
    let t = p.types;
    let args = rats_at(p, seq![ra, rb]);
    assert(args[0] == a && args[1] == b);
    let o = bigrat_result(op, args);
    if o is Some {
        lemma_with_rat(p, o->0);
        assert(is_rat(p2, r->0, o->0));
    }
    assert(a.1 * b.1 > 0) by (nonlinear_arith)
        requires
            a.1 > 0,
            b.1 > 0,
    ;
    if name == "bigrat-add"@ {
        named_bigrat_add(t);
        lowest_terms_keep_the_quotient(a.0 * b.1 + b.0 * a.1, a.1 * b.1);
    }
    if name == "bigrat-sub"@ {
        named_bigrat_sub(t);
        lowest_terms_keep_the_quotient(a.0 * b.1 - b.0 * a.1, a.1 * b.1);
    }
    if name == "bigrat-mul"@ {
        named_bigrat_mul(t);
        lowest_terms_keep_the_quotient(a.0 * b.0, a.1 * b.1);
    }
    if name == "bigrat-div"@ {
        named_bigrat_div(t);
        if b.0 != 0 {
            assert(a.1 * b.0 != 0) by (nonlinear_arith)
                requires
                    a.1 > 0,
                    b.0 != 0,
            ;
            lowest_terms_keep_the_quotient(a.0 * b.1, a.1 * b.0);
        }
    }
    if name == "bigrat-min"@ {
        named_bigrat_min(t);
    }
    if name == "bigrat-max"@ {
        named_bigrat_max(t);
    }
    if name == "bigrat-pow"@ {
        named_bigrat_pow(t);
        if b.1 == 1 && b.0 == 0 && a.0 != 0 {
            vstd::arithmetic::power::lemma_pow0(a.0);
            vstd::arithmetic::power::lemma_pow0(a.1);
        }
    }
}

/// What the function of a primitive on one fraction gives is said by the primitive's name.
pub proof fn unary_fraction_primitives_do_what_they_are_named(
    p: PoolState,
    name: Seq<char>,
    udf: Seq<char>,
    op: BigratOp,
    ra: i64,
    a: (int, int),
    p2: PoolState,
    r: Option<i64>,
)
    requires
        p.types.contains(BaseTy::BigInt),
        p.types.contains(BaseTy::BigRat),
        p.rats.len() < u32::MAX,
        builtin_udf(name, p.types) == Some((udf, UdfKind::BigratUnary(op))),
        is_rat(p, ra, a),
        a.1 > 0,
        bigrat_q_result(p, op, seq![ra]) == (p2, r),
    ensures
        name == "bigrat-neg"@ ==> r is Some && is_rat(p2, r->0, (-a.0, a.1)),
        name == "bigrat-abs"@ ==> r is Some && exists|q: (int, int)| #[trigger]
            is_rat(p2, r->0, q) && q.1 > 0 && (a.0 >= 0 ==> q.0 * a.1 == a.0 * q.1) && (a.0 < 0
                ==> q.0 * a.1 == -a.0 * q.1),
        name == "bigrat-floor"@ ==> r is Some && exists|n: int| #[trigger]
            is_rat(p2, r->0, (n, 1)) && n * a.1 <= a.0 && a.0 < n * a.1 + a.1,
        name == "bigrat-ceil"@ ==> r is Some && exists|n: int| #[trigger]
            is_rat(p2, r->0, (n, 1)) && n * a.1 - a.1 < a.0 && a.0 <= n * a.1,
        name == "bigrat-round"@ ==> r is Some && exists|n: int| #[trigger]
            is_rat(p2, r->0, (n, 1)) && -a.1 <= 2 * (a.0 - n * a.1) <= a.1 && (2 * (a.0 - n * a.1)
                == a.1 ==> a.0 < 0) && (2 * (a.0 - n * a.1) == -a.1 ==> a.0 >= 0),
        name == "bigrat-sqrt"@ ==> (r is Some ==> exists|q: (int, int)| #[trigger]
            is_rat(p2, r->0, q) && q.1 > 0 && q.0 >= 0 && (q.0 * q.0) * a.1 == a.0 * (q.1 * q.1))
            && (r is None ==> forall|m: int, k: int| !(#[trigger] (m * m) == a.0 && #[trigger] (k
            * k) == a.1)),
        name == "bigrat-log"@ ==> (r is Some <==> a == (1int, 1int)) && (r is Some ==> is_rat(
            p2,
            r->0,
            (0, 1),
        )),
        name == "bigrat-cbrt"@ ==> (r is Some <==> a == (1int, 1int)) && (r is Some ==> is_rat(
            p2,
            r->0,
            (1, 1),
        )),
{
    let t = p.types;
    let args = rats_at(p, seq![ra]);
    assert(args[0] == a);
    let o = bigrat_result(op, args);
    if o is Some {
        lemma_with_rat(p, o->0);
        assert(is_rat(p2, r->0, o->0));
    }
    if name == "bigrat-neg"@ {
        named_bigrat_neg(t);
    }
    if name == "bigrat-abs"@ {
        named_bigrat_abs(t);
        lowest_terms_keep_the_quotient(abs(a.0) as int, a.1);
    }
    if name == "bigrat-floor"@ {
        named_bigrat_floor(t);
        let n = a.0 / a.1;
        vstd::arithmetic::div_mod::lemma_fundamental_div_mod(a.0, a.1);
        vstd::arithmetic::div_mod::lemma_mod_bound(a.0, a.1);
        assert(a.1 * n == n * a.1) by (nonlinear_arith);
        assert(is_rat(p2, r->0, (n, 1)));
    }
    if name == "bigrat-ceil"@ {
        named_bigrat_ceil(t);
        let m = -a.0 / a.1;
        let n = -m;
        vstd::arithmetic::div_mod::lemma_fundamental_div_mod(-a.0, a.1);
        vstd::arithmetic::div_mod::lemma_mod_bound(-a.0, a.1);
        assert(n * a.1 == -(a.1 * m)) by (nonlinear_arith)
            requires
                n == -m,
        ;
        assert(is_rat(p2, r->0, (n, 1)));
    }
    if name == "bigrat-round"@ {
        named_bigrat_round(t);
        let s = if a.0 >= 0 {
            a.0
        } else {
            -a.0
        };
        let m = (2 * s + a.1) / (2 * a.1);
        let n = if a.0 >= 0 {
            m
        } else {
            -m
        };
        vstd::arithmetic::div_mod::lemma_fundamental_div_mod(2 * s + a.1, 2 * a.1);
        vstd::arithmetic::div_mod::lemma_mod_bound(2 * s + a.1, 2 * a.1);
        assert((2 * a.1) * m == 2 * (m * a.1)) by (nonlinear_arith);
        assert(-m * a.1 == -(m * a.1)) by (nonlinear_arith);
        assert(is_rat(p2, r->0, (n, 1)));
    }
    if name == "bigrat-sqrt"@ {
        named_bigrat_sqrt(t);
        if r is Some {
            let m = square_root(a.0);
            let k = square_root(a.1);
            assert(m >= 0 && m * m == a.0 && k >= 0 && k * k == a.1);
            assert(k > 0) by (nonlinear_arith)
                requires
                    k >= 0,
                    k * k == a.1,
                    a.1 > 0,
            ;
            lowest_terms_keep_the_quotient(m, k);
            let q = lowest(m, k);
            assert((q.0 * q.0) * a.1 == a.0 * (q.1 * q.1)) by (nonlinear_arith)
                requires
                    q.0 * k == m * q.1,
                    m * m == a.0,
                    k * k == a.1,
            ;
            assert(q.0 >= 0) by (nonlinear_arith)
                requires
                    q.0 * k == m * q.1,
                    m >= 0,
                    k > 0,
                    q.1 > 0,
            ;
        } else {
            assert forall|m: int, k: int| !(#[trigger] (m * m) == a.0 && #[trigger] (k * k)
                == a.1) by {
                if m * m == a.0 && k * k == a.1 {
                    let m1 = if m >= 0 {
                        m
                    } else {
                        -m
                    };
                    let k1 = if k >= 0 {
                        k
                    } else {
                        -k
                    };
                    assert(-m * -m == m * m) by (nonlinear_arith);
                    assert(-k * -k == k * k) by (nonlinear_arith);
                    assert(m1 * m1 == a.0 && k1 * k1 == a.1);
                    assert(is_square(a.0));
                    assert(is_square(a.1));
                }
            }
        }
    }
    if name == "bigrat-log"@ {
        named_bigrat_log(t);
    }
    if name == "bigrat-cbrt"@ {
        named_bigrat_cbrt(t);
    }
}

/// What the function of a comparison says, or a side of a fraction is, is said by the primitive's
/// name.
pub proof fn fraction_tests_do_what_they_are_named(
    types: Seq<BaseTy>,
    name: Seq<char>,
    udf: Seq<char>,
    kind: UdfKind,
    a: (int, int),
    b: (int, int),
)
    requires
        types.contains(BaseTy::BigInt),
        types.contains(BaseTy::BigRat),
        builtin_udf(name, types) == Some((udf, kind)),
    ensures
        name == "bigrat-lt"@ ==> kind is BigratOrder && bigrat_compared(kind->BigratOrder_0, a, b)
            == (a.0 * b.1 < b.0 * a.1),
        name == "bigrat-gt"@ ==> kind is BigratOrder && bigrat_compared(kind->BigratOrder_0, a, b)
            == (a.0 * b.1 > b.0 * a.1),
        name == "bigrat-le"@ ==> kind is BigratOrder && bigrat_compared(kind->BigratOrder_0, a, b)
            == (a.0 * b.1 <= b.0 * a.1),
        name == "bigrat-ge"@ ==> kind is BigratOrder && bigrat_compared(kind->BigratOrder_0, a, b)
            == (a.0 * b.1 >= b.0 * a.1),
        name == "bigrat-numer"@ ==> kind is BigratSide && side(kind->BigratSide_0, a) == a.0,
        name == "bigrat-denom"@ ==> kind is BigratSide && side(kind->BigratSide_0, a) == a.1,
        name == "bigrat-to-f64"@ ==> kind is BigratToF64,
{
    if name == "bigrat-lt"@ {
        named_bigrat_lt(types);
    }
    if name == "bigrat-gt"@ {
        named_bigrat_gt(types);
    }
    if name == "bigrat-le"@ {
        named_bigrat_le(types);
    }
    if name == "bigrat-ge"@ {
        named_bigrat_ge(types);
    }
    if name == "bigrat-numer"@ {
        named_bigrat_numer(types);
    }
    if name == "bigrat-denom"@ {
        named_bigrat_denom(types);
    }
    if name == "bigrat-to-f64"@ {
        named_bigrat_to_f64(types);
    }
}

/// Whether a primitive runs as the database's function of its own name, with underscores for the
/// dashes, in the given way.
pub open spec fn runs_as(
    types: Seq<BaseTy>,
    name: Seq<char>,
    written: Seq<char>,
    kind: UdfKind,
) -> bool {
    builtin_udf(name, types) == Some(("__egglog_"@ + written, kind))
}

/// The primitives on strings and the constructors of numbers, each by its name, once their types are
/// registered.
pub proof fn primitives_run_by_their_names(types: Seq<BaseTy>)
    ensures
        types.contains(BaseTy::Str) ==> runs_as(
            types,
            "string-concat"@,
            "string_concat"@,
            UdfKind::StringConcat,
        ),
        types.contains(BaseTy::Str) ==> runs_as(
            types,
            "replace"@,
            "replace"@,
            UdfKind::Replace,
        ),
        types.contains(BaseTy::Str) ==> runs_as(
            types,
            "count-matches"@,
            "count_matches"@,
            UdfKind::CountMatches,
        ),
        types.contains(BaseTy::Str) ==> runs_as(
            types,
            "i64-to-string"@,
            "i64_to_string"@,
            UdfKind::I64ToString,
        ),
        types.contains(BaseTy::Str) ==> runs_as(
            types,
            "f64-to-string"@,
            "f64_to_string"@,
            UdfKind::F64ToString,
        ),
        types.contains(BaseTy::Str) && types.contains(BaseTy::BigInt) ==> runs_as(
            types,
            "bigint-to-string"@,
            "bigint_to_string"@,
            UdfKind::BigIntToString,
        ),
        types.contains(BaseTy::BigInt) ==> runs_as(
            types,
            "bigint"@,
            "bigint"@,
            UdfKind::BigintConstructor,
        ),
        types.contains(BaseTy::BigInt) ==> runs_as(
            types,
            "from-string"@,
            "from_string"@,
            UdfKind::FromString,
        ),
        types.contains(BaseTy::BigInt) && types.contains(BaseTy::BigRat) ==> runs_as(
            types,
            "bigrat"@,
            "bigrat"@,
            UdfKind::Bigrat,
        ),
        types.contains(BaseTy::BigInt) ==> runs_as(
            types,
            "get-size!"@,
            "get_size"@,
            UdfKind::GetSize,
        ),
{
    reveal_strlit("__egglog_");
    if types.contains(BaseTy::Str) {
        named_string_concat(types);
        reveal_strlit("string_concat");
        reveal_strlit("__egglog_string_concat");
        assert("__egglog_string_concat"@ =~= "__egglog_"@ + "string_concat"@);
    }
    if types.contains(BaseTy::Str) {
        named_replace(types);
        reveal_strlit("replace");
        reveal_strlit("__egglog_replace");
        assert("__egglog_replace"@ =~= "__egglog_"@ + "replace"@);
    }
    if types.contains(BaseTy::Str) {
        named_count_matches(types);
        reveal_strlit("count_matches");
        reveal_strlit("__egglog_count_matches");
        assert("__egglog_count_matches"@ =~= "__egglog_"@ + "count_matches"@);
    }
    if types.contains(BaseTy::Str) {
        named_i64_to_string(types);
        reveal_strlit("i64_to_string");
        reveal_strlit("__egglog_i64_to_string");
        assert("__egglog_i64_to_string"@ =~= "__egglog_"@ + "i64_to_string"@);
    }
    if types.contains(BaseTy::Str) {
        named_f64_to_string(types);
        reveal_strlit("f64_to_string");
        reveal_strlit("__egglog_f64_to_string");
        assert("__egglog_f64_to_string"@ =~= "__egglog_"@ + "f64_to_string"@);
    }
    if types.contains(BaseTy::Str) && types.contains(BaseTy::BigInt) {
        named_bigint_to_string(types);
        reveal_strlit("bigint_to_string");
        reveal_strlit("__egglog_bigint_to_string");
        assert("__egglog_bigint_to_string"@ =~= "__egglog_"@ + "bigint_to_string"@);
    }
    if types.contains(BaseTy::BigInt) {
        named_bigint(types);
        reveal_strlit("bigint");
        reveal_strlit("__egglog_bigint");
        assert("__egglog_bigint"@ =~= "__egglog_"@ + "bigint"@);
    }
    if types.contains(BaseTy::BigInt) {
        named_from_string(types);
        reveal_strlit("from_string");
        reveal_strlit("__egglog_from_string");
        assert("__egglog_from_string"@ =~= "__egglog_"@ + "from_string"@);
    }
    if types.contains(BaseTy::BigInt) && types.contains(BaseTy::BigRat) {
        named_bigrat(types);
        reveal_strlit("bigrat");
        reveal_strlit("__egglog_bigrat");
        assert("__egglog_bigrat"@ =~= "__egglog_"@ + "bigrat"@);
    }
    if types.contains(BaseTy::BigInt) {
        named_get_size(types);
        reveal_strlit("get_size");
        reveal_strlit("__egglog_get_size");
        assert("__egglog_get_size"@ =~= "__egglog_"@ + "get_size"@);
    }
}

/// The primitives on numbers have a function of their name each, once their types are registered.
pub proof fn numeric_primitives_run_by_their_names(types: Seq<BaseTy>, name: Seq<char>)
    ensures
        types.contains(BaseTy::BigInt) && (name == "bigint-add"@
            || name == "bigint-sub"@
            || name == "bigint-mul"@
            || name == "bigint-div"@
            || name == "bigint-rem"@
            || name == "bigint-and"@
            || name == "bigint-or"@
            || name == "bigint-xor"@
            || name == "bigint-min"@
            || name == "bigint-max"@) ==> (builtin_udf(name, types) matches Some((udf, k)) && udf == "__egglog_"@ + swapped(
            name,
            '-',
            '_',
        ) && k is BigintBinary),
        types.contains(BaseTy::BigInt) && types.contains(BaseTy::BigRat) && (name == "bigrat-add"@
            || name == "bigrat-sub"@
            || name == "bigrat-mul"@
            || name == "bigrat-div"@
            || name == "bigrat-min"@
            || name == "bigrat-max"@
            || name == "bigrat-pow"@
            || name == "bigrat-neg"@
            || name == "bigrat-abs"@
            || name == "bigrat-floor"@
            || name == "bigrat-ceil"@
            || name == "bigrat-round"@
            || name == "bigrat-sqrt"@
            || name == "bigrat-log"@
            || name == "bigrat-cbrt"@
            || name == "bigrat-lt"@
            || name == "bigrat-gt"@
            || name == "bigrat-le"@
            || name == "bigrat-ge"@
            || name == "bigrat-numer"@
            || name == "bigrat-denom"@
            || name == "bigrat-to-f64"@) ==> (builtin_udf(name, types) matches Some((udf, k)) && udf == "__egglog_"@ + swapped(
            name,
            '-',
            '_',
        ) && (k is BigratBinary || k is BigratUnary || k is BigratOrder || k is BigratSide
            || k is BigratToF64)),
{
    if types.contains(BaseTy::BigInt) {
        named_bigint_add(types);
        named_bigint_sub(types);
        named_bigint_mul(types);
        named_bigint_div(types);
        named_bigint_rem(types);
        named_bigint_and(types);
        named_bigint_or(types);
        named_bigint_xor(types);
        named_bigint_min(types);
        named_bigint_max(types);
        if types.contains(BaseTy::BigRat) {
            named_bigrat_add(types);
            named_bigrat_sub(types);
            named_bigrat_mul(types);
            named_bigrat_div(types);
            named_bigrat_min(types);
            named_bigrat_max(types);
            named_bigrat_pow(types);
            named_bigrat_neg(types);
            named_bigrat_abs(types);
            named_bigrat_floor(types);
            named_bigrat_ceil(types);
            named_bigrat_round(types);
            named_bigrat_sqrt(types);
            named_bigrat_log(types);
            named_bigrat_cbrt(types);
            named_bigrat_lt(types);
            named_bigrat_gt(types);
            named_bigrat_le(types);
            named_bigrat_ge(types);
            named_bigrat_numer(types);
            named_bigrat_denom(types);
            named_bigrat_to_f64(types);
        }
    }
}

/// The primitives that are folded on literals have functions of other kinds than the rest.
pub proof fn named_of_folds(types: Seq<BaseTy>, name: Seq<char>)
    requires
        types.contains(BaseTy::BigInt),
    ensures
        builtin_udf(name, types) matches Some((udf, k)) ==> {
            &&& k is FromString <==> name == "from-string"@
            &&& k is Bigrat <==> name == "bigrat"@
            &&& k is Bigrat || k is BigratBinary || k is BigratUnary || k is BigratOrder
                || k is BigratSide || k is BigratToF64 ==> types.contains(BaseTy::BigRat)
        },
{
    named_from_string(types);
    if types.contains(BaseTy::BigRat) {
        named_bigrat(types);
    }
    reveal_strlit("from-string");
    reveal_strlit("bigrat");
    reveal_strlit("bigint");
    reveal_strlit("string-concat");
    reveal_strlit("replace");
    reveal_strlit("count-matches");
    reveal_strlit("i64-to-string");
    reveal_strlit("f64-to-string");
    reveal_strlit("bigint-to-string");
    assert("bigrat"@.len() == 6 && "bigint"@.len() == 6 && "from-string"@.len() == 11);
    assert("bigrat"@[3] == 'r' && "bigint"@[3] == 'i');
    assert("bigrat"@ != "replace"@ && "bigrat"@ != "string-concat"@ && "bigrat"@ != "count-matches"@
        && "bigrat"@ != "i64-to-string"@ && "bigrat"@ != "f64-to-string"@ && "bigrat"@
        != "bigint-to-string"@) by {
        assert("replace"@.len() == 7 && "string-concat"@.len() == 13 && "count-matches"@.len() == 13
            && "i64-to-string"@.len() == 13 && "f64-to-string"@.len() == 13
            && "bigint-to-string"@.len() == 16);
    }
}

} // verus!
