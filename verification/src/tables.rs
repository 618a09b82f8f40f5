//! Tables of the functions and operators that expressions may call.

use vstd::prelude::*;

verus! {

/// Rows of the standard function table: Logica-style snake_case name and SQL name.
pub open spec fn bulk_rows_spec() -> Seq<(Seq<char>, Seq<char>)> {
    seq![
        ("abs"@, "ABS"@),
        ("acos"@, "ACOS"@),
        ("acosh"@, "ACOSH"@),
        ("aead.decrypt_bytes"@, "AEAD.DECRYPT_BYTES"@),
        ("aead.decrypt_string"@, "AEAD.DECRYPT_STRING"@),
        ("aead.encrypt"@, "AEAD.ENCRYPT"@),
        ("any_value"@, "ANY_VALUE"@),
        ("approx_count_distinct"@, "APPROX_COUNT_DISTINCT"@),
        ("approx_quantiles"@, "APPROX_QUANTILES"@),
        ("approx_top_count"@, "APPROX_TOP_COUNT"@),
        ("approx_top_sum"@, "APPROX_TOP_SUM"@),
        ("array_agg"@, "ARRAY_AGG"@),
        ("array_concat"@, "ARRAY_CONCAT"@),
        ("array_concat_agg"@, "ARRAY_CONCAT_AGG"@),
        ("array_length"@, "ARRAY_LENGTH"@),
        ("array_reverse"@, "ARRAY_REVERSE"@),
        ("array_to_string"@, "ARRAY_TO_STRING"@),
        ("asin"@, "ASIN"@),
        ("asinh"@, "ASINH"@),
        ("atan"@, "ATAN"@),
        ("atan2"@, "ATAN2"@),
        ("atanh"@, "ATANH"@),
        ("avg"@, "AVG"@),
        ("bit_and"@, "BIT_AND"@),
        ("bit_cast_to_int32"@, "BIT_CAST_TO_INT32"@),
        ("bit_cast_to_int64"@, "BIT_CAST_TO_INT64"@),
        ("bit_cast_to_uint32"@, "BIT_CAST_TO_UINT32"@),
        ("bit_cast_to_uint64"@, "BIT_CAST_TO_UINT64"@),
        ("bit_count"@, "BIT_COUNT"@),
        ("bit_or"@, "BIT_OR"@),
        ("bit_xor"@, "BIT_XOR"@),
        ("byte_length"@, "BYTE_LENGTH"@),
        ("ceil"@, "CEIL"@),
        ("char_length"@, "CHAR_LENGTH"@),
        ("coalesce"@, "COALESCE"@),
        ("code_points_to_bytes"@, "CODE_POINTS_TO_BYTES"@),
        ("code_points_to_string"@, "CODE_POINTS_TO_STRING"@),
        ("concat"@, "CONCAT"@),
        ("corr"@, "CORR"@),
        ("cos"@, "COS"@),
        ("cosh"@, "COSH"@),
        ("count"@, "COUNT"@),
        ("countif"@, "COUNTIF"@),
        ("covar_pop"@, "COVAR_POP"@),
        ("covar_samp"@, "COVAR_SAMP"@),
        ("cume_dist"@, "CUME_DIST"@),
        ("current_date"@, "CURRENT_DATE"@),
        ("current_datetime"@, "CURRENT_DATETIME"@),
        ("current_time"@, "CURRENT_TIME"@),
        ("current_timestamp"@, "CURRENT_TIMESTAMP"@),
        ("date"@, "DATE"@),
        ("date_add"@, "DATE_ADD"@),
        ("date_diff"@, "DATE_DIFF"@),
        ("date_from_unix_date"@, "DATE_FROM_UNIX_DATE"@),
        ("date_sub"@, "DATE_SUB"@),
        ("date_trunc"@, "DATE_TRUNC"@),
        ("datetime"@, "DATETIME"@),
        ("datetime_add"@, "DATETIME_ADD"@),
        ("datetime_diff"@, "DATETIME_DIFF"@),
        ("datetime_sub"@, "DATETIME_SUB"@),
        ("datetime_trunc"@, "DATETIME_TRUNC"@),
        ("dense_rank"@, "DENSE_RANK"@),
        ("div"@, "DIV"@),
        ("ends_with"@, "ENDS_WITH"@),
        ("error"@, "ERROR"@),
        ("exp"@, "EXP"@),
        ("farm_fingerprint"@, "FARM_FINGERPRINT"@),
        ("first_value"@, "FIRST_VALUE"@),
        ("floor"@, "FLOOR"@),
        ("format"@, "FORMAT"@),
        ("format_date"@, "FORMAT_DATE"@),
        ("format_datetime"@, "FORMAT_DATETIME"@),
        ("format_time"@, "FORMAT_TIME"@),
        ("format_timestamp"@, "FORMAT_TIMESTAMP"@),
        ("from_base32"@, "FROM_BASE32"@),
        ("from_base64"@, "FROM_BASE64"@),
        ("from_hex"@, "FROM_HEX"@),
        ("from_proto"@, "FROM_PROTO"@),
        ("generate_array"@, "GENERATE_ARRAY"@),
        ("generate_date_array"@, "GENERATE_DATE_ARRAY"@),
        ("generate_timestamp_array"@, "GENERATE_TIMESTAMP_ARRAY"@),
        ("generate_uuid"@, "GENERATE_UUID"@),
        ("greatest"@, "GREATEST"@),
        ("hll_count.extract"@, "HLL_COUNT.EXTRACT"@),
        ("hll_count.init"@, "HLL_COUNT.INIT"@),
        ("hll_count.merge"@, "HLL_COUNT.MERGE"@),
        ("hll_count.merge_partial"@, "HLL_COUNT.MERGE_PARTIAL"@),
        ("ieee_divide"@, "IEEE_DIVIDE"@),
        ("if"@, "IF"@),
        ("ifnull"@, "IFNULL"@),
        ("is_inf"@, "IS_INF"@),
        ("is_nan"@, "IS_NAN"@),
        ("json_extract"@, "JSON_EXTRACT"@),
        ("json_extract_scalar"@, "JSON_EXTRACT_SCALAR"@),
        ("json_query"@, "JSON_QUERY"@),
        ("json_value"@, "JSON_VALUE"@),
        ("keys.add_key_from_raw_bytes"@, "KEYS.ADD_KEY_FROM_RAW_BYTES"@),
        ("keys.keyset_from_json"@, "KEYS.KEYSET_FROM_JSON"@),
        ("keys.keyset_length"@, "KEYS.KEYSET_LENGTH"@),
        ("keys.keyset_to_json"@, "KEYS.KEYSET_TO_JSON"@),
        ("keys.new_keyset"@, "KEYS.NEW_KEYSET"@),
        ("keys.rotate_keyset"@, "KEYS.ROTATE_KEYSET"@),
        ("lag"@, "LAG"@),
        ("last_value"@, "LAST_VALUE"@),
        ("lead"@, "LEAD"@),
        ("least"@, "LEAST"@),
        ("length"@, "LENGTH"@),
        ("ln"@, "LN"@),
        ("log"@, "LOG"@),
        ("log10"@, "LOG10"@),
        ("logical_and"@, "LOGICAL_AND"@),
        ("logical_or"@, "LOGICAL_OR"@),
        ("lower"@, "LOWER"@),
        ("lpad"@, "LPAD"@),
        ("ltrim"@, "LTRIM"@),
        ("max"@, "MAX"@),
        ("md5"@, "MD5"@),
        ("min"@, "MIN"@),
        ("mod"@, "MOD"@),
        ("net.format_ip"@, "NET.FORMAT_IP"@),
        ("net.format_packed_ip"@, "NET.FORMAT_PACKED_IP"@),
        ("net.host"@, "NET.HOST"@),
        ("net.ip_from_string"@, "NET.IP_FROM_STRING"@),
        ("net.ip_in_net"@, "NET.IP_IN_NET"@),
        ("net.ip_net_mask"@, "NET.IP_NET_MASK"@),
        ("net.ip_to_string"@, "NET.IP_TO_STRING"@),
        ("net.ip_trunc"@, "NET.IP_TRUNC"@),
        ("net.ipv4_from_int64"@, "NET.IPV4_FROM_INT64"@),
        ("net.ipv4_to_int64"@, "NET.IPV4_TO_INT64"@),
        ("net.make_net"@, "NET.MAKE_NET"@),
        ("net.parse_ip"@, "NET.PARSE_IP"@),
        ("net.parse_packed_ip"@, "NET.PARSE_PACKED_IP"@),
        ("net.public_suffix"@, "NET.PUBLIC_SUFFIX"@),
        ("net.reg_domain"@, "NET.REG_DOMAIN"@),
        ("net.safe_ip_from_string"@, "NET.SAFE_IP_FROM_STRING"@),
        ("normalize"@, "NORMALIZE"@),
        ("normalize_and_casefold"@, "NORMALIZE_AND_CASEFOLD"@),
        ("nth_value"@, "NTH_VALUE"@),
        ("ntile"@, "NTILE"@),
        ("nullif"@, "NULLIF"@),
        ("parse_date"@, "PARSE_DATE"@),
        ("parse_datetime"@, "PARSE_DATETIME"@),
        ("parse_time"@, "PARSE_TIME"@),
        ("parse_timestamp"@, "PARSE_TIMESTAMP"@),
        ("percent_rank"@, "PERCENT_RANK"@),
        ("percentile_cont"@, "PERCENTILE_CONT"@),
        ("percentile_disc"@, "PERCENTILE_DISC"@),
        ("pow"@, "POW"@),
        ("proto_default_if_null"@, "PROTO_DEFAULT_IF_NULL"@),
        ("rand"@, "RAND"@),
        ("range_bucket"@, "RANGE_BUCKET"@),
        ("rank"@, "RANK"@),
        ("regexp_contains"@, "REGEXP_CONTAINS"@),
        ("regexp_extract"@, "REGEXP_EXTRACT"@),
        ("regexp_extract_all"@, "REGEXP_EXTRACT_ALL"@),
        ("regexp_match"@, "REGEXP_MATCH"@),
        ("regexp_replace"@, "REGEXP_REPLACE"@),
        ("repeat"@, "REPEAT"@),
        ("replace"@, "REPLACE"@),
        ("reverse"@, "REVERSE"@),
        ("round"@, "ROUND"@),
        ("row_number"@, "ROW_NUMBER"@),
        ("rpad"@, "RPAD"@),
        ("rtrim"@, "RTRIM"@),
        ("safe_add"@, "SAFE_ADD"@),
        ("safe_convert_bytes_to_string"@, "SAFE_CONVERT_BYTES_TO_STRING"@),
        ("safe_divide"@, "SAFE_DIVIDE"@),
        ("safe_multiply"@, "SAFE_MULTIPLY"@),
        ("safe_negate"@, "SAFE_NEGATE"@),
        ("safe_subtract"@, "SAFE_SUBTRACT"@),
        ("session_user"@, "SESSION_USER"@),
        ("sha1"@, "SHA1"@),
        ("sha256"@, "SHA256"@),
        ("sha512"@, "SHA512"@),
        ("sign"@, "SIGN"@),
        ("sin"@, "SIN"@),
        ("sinh"@, "SINH"@),
        ("split"@, "SPLIT"@),
        ("sqrt"@, "SQRT"@),
        ("st_accum"@, "ST_ACCUM"@),
        ("st_area"@, "ST_AREA"@),
        ("st_asbinary"@, "ST_ASBINARY"@),
        ("st_asgeojson"@, "ST_ASGEOJSON"@),
        ("st_askml"@, "ST_ASKML"@),
        ("st_astext"@, "ST_ASTEXT"@),
        ("st_boundary"@, "ST_BOUNDARY"@),
        ("st_buffer"@, "ST_BUFFER"@),
        ("st_bufferwithtolerance"@, "ST_BUFFERWITHTOLERANCE"@),
        ("st_centroid"@, "ST_CENTROID"@),
        ("st_centroid_agg"@, "ST_CENTROID_AGG"@),
        ("st_closestpoint"@, "ST_CLOSESTPOINT"@),
        ("st_contains"@, "ST_CONTAINS"@),
        ("st_coveredby"@, "ST_COVEREDBY"@),
        ("st_covers"@, "ST_COVERS"@),
        ("st_difference"@, "ST_DIFFERENCE"@),
        ("st_dimension"@, "ST_DIMENSION"@),
        ("st_disjoint"@, "ST_DISJOINT"@),
        ("st_distance"@, "ST_DISTANCE"@),
        ("st_dwithin"@, "ST_DWITHIN"@),
        ("st_equals"@, "ST_EQUALS"@),
        ("st_geogfromgeojson"@, "ST_GEOGFROMGEOJSON"@),
        ("st_geogfromkml"@, "ST_GEOGFROMKML"@),
        ("st_geogfromtext"@, "ST_GEOGFROMTEXT"@),
        ("st_geogfromwkb"@, "ST_GEOGFROMWKB"@),
        ("st_geogpoint"@, "ST_GEOGPOINT"@),
        ("st_geogpointfromgeohash"@, "ST_GEOGPOINTFROMGEOHASH"@),
        ("st_geohash"@, "ST_GEOHASH"@),
        ("st_intersection"@, "ST_INTERSECTION"@),
        ("st_intersects"@, "ST_INTERSECTS"@),
        ("st_intersectsbox"@, "ST_INTERSECTSBOX"@),
        ("st_iscollection"@, "ST_ISCOLLECTION"@),
        ("st_isempty"@, "ST_ISEMPTY"@),
        ("st_length"@, "ST_LENGTH"@),
        ("st_makeline"@, "ST_MAKELINE"@),
        ("st_makepolygon"@, "ST_MAKEPOLYGON"@),
        ("st_makepolygonoriented"@, "ST_MAKEPOLYGONORIENTED"@),
        ("st_maxdistance"@, "ST_MAXDISTANCE"@),
        ("st_numpoints"@, "ST_NUMPOINTS"@),
        ("st_perimeter"@, "ST_PERIMETER"@),
        ("st_simplify"@, "ST_SIMPLIFY"@),
        ("st_snaptogrid"@, "ST_SNAPTOGRID"@),
        ("st_touches"@, "ST_TOUCHES"@),
        ("st_unaryunion"@, "ST_UNARYUNION"@),
        ("st_union"@, "ST_UNION"@),
        ("st_union_agg"@, "ST_UNION_AGG"@),
        ("st_within"@, "ST_WITHIN"@),
        ("st_x"@, "ST_X"@),
        ("st_y"@, "ST_Y"@),
        ("starts_with"@, "STARTS_WITH"@),
        ("stddev_pop"@, "STDDEV_POP"@),
        ("stddev_samp"@, "STDDEV_SAMP"@),
        ("string"@, "STRING"@),
        ("string_agg"@, "STRING_AGG"@),
        ("strpos"@, "STRPOS"@),
        ("substr"@, "SUBSTR"@),
        ("sum"@, "SUM"@),
        ("tan"@, "TAN"@),
        ("tanh"@, "TANH"@),
        ("time"@, "TIME"@),
        ("time_add"@, "TIME_ADD"@),
        ("time_diff"@, "TIME_DIFF"@),
        ("time_sub"@, "TIME_SUB"@),
        ("time_trunc"@, "TIME_TRUNC"@),
        ("timestamp"@, "TIMESTAMP"@),
        ("timestamp_add"@, "TIMESTAMP_ADD"@),
        ("timestamp_diff"@, "TIMESTAMP_DIFF"@),
        ("timestamp_from_unix_micros"@, "TIMESTAMP_FROM_UNIX_MICROS"@),
        ("timestamp_from_unix_millis"@, "TIMESTAMP_FROM_UNIX_MILLIS"@),
        ("timestamp_from_unix_seconds"@, "TIMESTAMP_FROM_UNIX_SECONDS"@),
        ("timestamp_micros"@, "TIMESTAMP_MICROS"@),
        ("timestamp_millis"@, "TIMESTAMP_MILLIS"@),
        ("timestamp_seconds"@, "TIMESTAMP_SECONDS"@),
        ("timestamp_sub"@, "TIMESTAMP_SUB"@),
        ("timestamp_trunc"@, "TIMESTAMP_TRUNC"@),
        ("to_base32"@, "TO_BASE32"@),
        ("to_base64"@, "TO_BASE64"@),
        ("to_code_points"@, "TO_CODE_POINTS"@),
        ("to_hex"@, "TO_HEX"@),
        ("to_json_string"@, "TO_JSON_STRING"@),
        ("to_proto"@, "TO_PROTO"@),
        ("trim"@, "TRIM"@),
        ("trunc"@, "TRUNC"@),
        ("unix_date"@, "UNIX_DATE"@),
        ("unix_micros"@, "UNIX_MICROS"@),
        ("unix_millis"@, "UNIX_MILLIS"@),
        ("unix_seconds"@, "UNIX_SECONDS"@),
        ("upper"@, "UPPER"@),
        ("var_pop"@, "VAR_POP"@),
        ("var_samp"@, "VAR_SAMP"@),
    ]
}

/// Logica built-in functions and their SQL templates; they take precedence over
/// the standard function table.
pub open spec fn base_functions_spec() -> Seq<(Seq<char>, Seq<char>)> {
    seq![
        ("ToFloat64"@, "CAST(%s AS FLOAT64)"@),
        ("ToInt64"@, "CAST(%s AS INT64)"@),
        ("ToUInt64"@, "CAST(%s AS UINT64)"@),
        ("ToString"@, "CAST(%s AS STRING)"@),
        ("1"@, "MIN(%s)"@),
        ("Agg+"@, "SUM(%s)"@),
        ("Agg++"@, "ARRAY_CONCAT_AGG(%s)"@),
        ("Count"@, "APPROX_COUNT_DISTINCT(%s)"@),
        ("ExactCount"@, "COUNT(DISTINCT %s)"@),
        ("List"@, "ARRAY_AGG(%s)"@),
        ("Set"@, "ARRAY_AGG(DISTINCT %s)"@),
        ("SomeValue"@, "ANY_VALUE(%s)"@),
        ("Max"@, "MAX(%s)"@),
        ("Min"@, "MIN(%s)"@),
        ("Avg"@, "AVG(%s)"@),
        ("Sum"@, "SUM(%s)"@),
        ("Array"@, "ARRAY_AGG(%s)"@),
        ("StringAgg"@, "GROUP_CONCAT(%s)"@),
        ("Median"@, "APPROX_QUANTILES(%s, 2)[OFFSET(1)]"@),
        ("!"@, "NOT %s"@),
        ("-"@, "- %s"@),
        ("Concat"@, "ARRAY_CONCAT({0}, {1})"@),
        ("DateAddDay"@, "DATE_ADD({0}, INTERVAL {1} DAY)"@),
        ("DateDiffDay"@, "DATE_DIFF({0}, {1}, DAY)"@),
        ("Element"@, "{0}[OFFSET({1})]"@),
        ("IsNull"@, "(%s IS NULL)"@),
        ("Join"@, "ARRAY_TO_STRING(%s)"@),
        ("Like"@, "({0} LIKE {1})"@),
        ("Range"@, "GENERATE_ARRAY(0, %s - 1)"@),
        ("RangeOf"@, "GENERATE_ARRAY(0, ARRAY_LENGTH(%s) - 1)"@),
        ("Size"@, "ARRAY_LENGTH(%s)"@),
        ("Sort"@, "ARRAY(SELECT x FROM UNNEST(%s) as x ORDER BY x)"@),
        ("Split"@, "SPLIT({0}, {1})"@),
        ("TimestampAddDays"@, "TIMESTAMP_ADD({0}, INTERVAL {1} DAY)"@),
        ("Unique"@, "ARRAY(SELECT DISTINCT x FROM UNNEST(%s) as x ORDER BY x)"@),
        ("ValueOfUnnested"@, "%s"@),
        ("MagicalEntangle"@, "{0}"@),
        ("Container"@, "%s"@),
        ("Constraint"@, "%s"@),
        ("Aggr"@, "%s"@),
        ("Abs"@, "ABS(%s)"@),
        ("Exp"@, "EXP(%s)"@),
        ("Log"@, "LOG(%s)"@),
        ("Sin"@, "SIN(%s)"@),
        ("Cos"@, "COS(%s)"@),
        ("Sqrt"@, "SQRT(%s)"@),
        ("Floor"@, "FLOOR(%s)"@),
        ("Ceiling"@, "CEIL(%s)"@),
        ("Round"@, "ROUND(%s)"@),
        ("Pow"@, "POW({0}, {1})"@),
        ("Length"@, "LENGTH(%s)"@),
        ("Replace"@, "REPLACE({0}, {1}, {2})"@),
        ("Substr"@, "SUBSTR({0}, {1}, {2})"@),
        ("Upper"@, "UPPER(%s)"@),
        ("Lower"@, "LOWER(%s)"@),
        ("Trim"@, "TRIM(%s)"@),
    ]
}

/// Logica infix operators and their SQL templates.
pub open spec fn base_infix_spec() -> Seq<(Seq<char>, Seq<char>)> {
    seq![
        ("=="@, "%s = %s"@),
        ("!="@, "%s != %s"@),
        ("<="@, "%s <= %s"@),
        ("<"@, "%s < %s"@),
        (">="@, "%s >= %s"@),
        (">"@, "%s > %s"@),
        ("+"@, "(%s) + (%s)"@),
        ("-"@, "(%s) - (%s)"@),
        ("*"@, "(%s) * (%s)"@),
        ("/"@, "(%s) / (%s)"@),
        ("^"@, "POW(%s, %s)"@),
        ("%"@, "MOD(%s, %s)"@),
        ("++"@, "CONCAT(%s, %s)"@),
        ("||"@, "%s OR %s"@),
        ("&&"@, "%s AND %s"@),
        ("in"@, "%s IN UNNEST(%s)"@),
        ("is"@, "%s IS %s"@),
        ("is not"@, "%s IS NOT %s"@),
    ]
}

pub fn bulk_rows() -> (r: Vec<(&'static str, &'static str)>)
    ensures
        r@.map_values(|p: (&'static str, &'static str)| (p.0@, p.1@)) == bulk_rows_spec(),
{
    let r = vec![
        ("abs", "ABS"),
        ("acos", "ACOS"),
        ("acosh", "ACOSH"),
        ("aead.decrypt_bytes", "AEAD.DECRYPT_BYTES"),
        ("aead.decrypt_string", "AEAD.DECRYPT_STRING"),
        ("aead.encrypt", "AEAD.ENCRYPT"),
        ("any_value", "ANY_VALUE"),
        ("approx_count_distinct", "APPROX_COUNT_DISTINCT"),
        ("approx_quantiles", "APPROX_QUANTILES"),
        ("approx_top_count", "APPROX_TOP_COUNT"),
        ("approx_top_sum", "APPROX_TOP_SUM"),
        ("array_agg", "ARRAY_AGG"),
        ("array_concat", "ARRAY_CONCAT"),
        ("array_concat_agg", "ARRAY_CONCAT_AGG"),
        ("array_length", "ARRAY_LENGTH"),
        ("array_reverse", "ARRAY_REVERSE"),
        ("array_to_string", "ARRAY_TO_STRING"),
        ("asin", "ASIN"),
        ("asinh", "ASINH"),
        ("atan", "ATAN"),
        ("atan2", "ATAN2"),
        ("atanh", "ATANH"),
        ("avg", "AVG"),
        ("bit_and", "BIT_AND"),
        ("bit_cast_to_int32", "BIT_CAST_TO_INT32"),
        ("bit_cast_to_int64", "BIT_CAST_TO_INT64"),
        ("bit_cast_to_uint32", "BIT_CAST_TO_UINT32"),
        ("bit_cast_to_uint64", "BIT_CAST_TO_UINT64"),
        ("bit_count", "BIT_COUNT"),
        ("bit_or", "BIT_OR"),
        ("bit_xor", "BIT_XOR"),
        ("byte_length", "BYTE_LENGTH"),
        ("ceil", "CEIL"),
        ("char_length", "CHAR_LENGTH"),
        ("coalesce", "COALESCE"),
        ("code_points_to_bytes", "CODE_POINTS_TO_BYTES"),
        ("code_points_to_string", "CODE_POINTS_TO_STRING"),
        ("concat", "CONCAT"),
        ("corr", "CORR"),
        ("cos", "COS"),
        ("cosh", "COSH"),
        ("count", "COUNT"),
        ("countif", "COUNTIF"),
        ("covar_pop", "COVAR_POP"),
        ("covar_samp", "COVAR_SAMP"),
        ("cume_dist", "CUME_DIST"),
        ("current_date", "CURRENT_DATE"),
        ("current_datetime", "CURRENT_DATETIME"),
        ("current_time", "CURRENT_TIME"),
        ("current_timestamp", "CURRENT_TIMESTAMP"),
        ("date", "DATE"),
        ("date_add", "DATE_ADD"),
        ("date_diff", "DATE_DIFF"),
        ("date_from_unix_date", "DATE_FROM_UNIX_DATE"),
        ("date_sub", "DATE_SUB"),
        ("date_trunc", "DATE_TRUNC"),
        ("datetime", "DATETIME"),
        ("datetime_add", "DATETIME_ADD"),
        ("datetime_diff", "DATETIME_DIFF"),
        ("datetime_sub", "DATETIME_SUB"),
        ("datetime_trunc", "DATETIME_TRUNC"),
        ("dense_rank", "DENSE_RANK"),
        ("div", "DIV"),
        ("ends_with", "ENDS_WITH"),
        ("error", "ERROR"),
        ("exp", "EXP"),
        ("farm_fingerprint", "FARM_FINGERPRINT"),
        ("first_value", "FIRST_VALUE"),
        ("floor", "FLOOR"),
        ("format", "FORMAT"),
        ("format_date", "FORMAT_DATE"),
        ("format_datetime", "FORMAT_DATETIME"),
        ("format_time", "FORMAT_TIME"),
        ("format_timestamp", "FORMAT_TIMESTAMP"),
        ("from_base32", "FROM_BASE32"),
        ("from_base64", "FROM_BASE64"),
        ("from_hex", "FROM_HEX"),
        ("from_proto", "FROM_PROTO"),
        ("generate_array", "GENERATE_ARRAY"),
        ("generate_date_array", "GENERATE_DATE_ARRAY"),
        ("generate_timestamp_array", "GENERATE_TIMESTAMP_ARRAY"),
        ("generate_uuid", "GENERATE_UUID"),
        ("greatest", "GREATEST"),
        ("hll_count.extract", "HLL_COUNT.EXTRACT"),
        ("hll_count.init", "HLL_COUNT.INIT"),
        ("hll_count.merge", "HLL_COUNT.MERGE"),
        ("hll_count.merge_partial", "HLL_COUNT.MERGE_PARTIAL"),
        ("ieee_divide", "IEEE_DIVIDE"),
        ("if", "IF"),
        ("ifnull", "IFNULL"),
        ("is_inf", "IS_INF"),
        ("is_nan", "IS_NAN"),
        ("json_extract", "JSON_EXTRACT"),
        ("json_extract_scalar", "JSON_EXTRACT_SCALAR"),
        ("json_query", "JSON_QUERY"),
        ("json_value", "JSON_VALUE"),
        ("keys.add_key_from_raw_bytes", "KEYS.ADD_KEY_FROM_RAW_BYTES"),
        ("keys.keyset_from_json", "KEYS.KEYSET_FROM_JSON"),
        ("keys.keyset_length", "KEYS.KEYSET_LENGTH"),
        ("keys.keyset_to_json", "KEYS.KEYSET_TO_JSON"),
        ("keys.new_keyset", "KEYS.NEW_KEYSET"),
        ("keys.rotate_keyset", "KEYS.ROTATE_KEYSET"),
        ("lag", "LAG"),
        ("last_value", "LAST_VALUE"),
        ("lead", "LEAD"),
        ("least", "LEAST"),
        ("length", "LENGTH"),
        ("ln", "LN"),
        ("log", "LOG"),
        ("log10", "LOG10"),
        ("logical_and", "LOGICAL_AND"),
        ("logical_or", "LOGICAL_OR"),
        ("lower", "LOWER"),
        ("lpad", "LPAD"),
        ("ltrim", "LTRIM"),
        ("max", "MAX"),
        ("md5", "MD5"),
        ("min", "MIN"),
        ("mod", "MOD"),
        ("net.format_ip", "NET.FORMAT_IP"),
        ("net.format_packed_ip", "NET.FORMAT_PACKED_IP"),
        ("net.host", "NET.HOST"),
        ("net.ip_from_string", "NET.IP_FROM_STRING"),
        ("net.ip_in_net", "NET.IP_IN_NET"),
        ("net.ip_net_mask", "NET.IP_NET_MASK"),
        ("net.ip_to_string", "NET.IP_TO_STRING"),
        ("net.ip_trunc", "NET.IP_TRUNC"),
        ("net.ipv4_from_int64", "NET.IPV4_FROM_INT64"),
        ("net.ipv4_to_int64", "NET.IPV4_TO_INT64"),
        ("net.make_net", "NET.MAKE_NET"),
        ("net.parse_ip", "NET.PARSE_IP"),
        ("net.parse_packed_ip", "NET.PARSE_PACKED_IP"),
        ("net.public_suffix", "NET.PUBLIC_SUFFIX"),
        ("net.reg_domain", "NET.REG_DOMAIN"),
        ("net.safe_ip_from_string", "NET.SAFE_IP_FROM_STRING"),
        ("normalize", "NORMALIZE"),
        ("normalize_and_casefold", "NORMALIZE_AND_CASEFOLD"),
        ("nth_value", "NTH_VALUE"),
        ("ntile", "NTILE"),
        ("nullif", "NULLIF"),
        ("parse_date", "PARSE_DATE"),
        ("parse_datetime", "PARSE_DATETIME"),
        ("parse_time", "PARSE_TIME"),
        ("parse_timestamp", "PARSE_TIMESTAMP"),
        ("percent_rank", "PERCENT_RANK"),
        ("percentile_cont", "PERCENTILE_CONT"),
        ("percentile_disc", "PERCENTILE_DISC"),
        ("pow", "POW"),
        ("proto_default_if_null", "PROTO_DEFAULT_IF_NULL"),
        ("rand", "RAND"),
        ("range_bucket", "RANGE_BUCKET"),
        ("rank", "RANK"),
        ("regexp_contains", "REGEXP_CONTAINS"),
        ("regexp_extract", "REGEXP_EXTRACT"),
        ("regexp_extract_all", "REGEXP_EXTRACT_ALL"),
        ("regexp_match", "REGEXP_MATCH"),
        ("regexp_replace", "REGEXP_REPLACE"),
        ("repeat", "REPEAT"),
        ("replace", "REPLACE"),
        ("reverse", "REVERSE"),
        ("round", "ROUND"),
        ("row_number", "ROW_NUMBER"),
        ("rpad", "RPAD"),
        ("rtrim", "RTRIM"),
        ("safe_add", "SAFE_ADD"),
        ("safe_convert_bytes_to_string", "SAFE_CONVERT_BYTES_TO_STRING"),
        ("safe_divide", "SAFE_DIVIDE"),
        ("safe_multiply", "SAFE_MULTIPLY"),
        ("safe_negate", "SAFE_NEGATE"),
        ("safe_subtract", "SAFE_SUBTRACT"),
        ("session_user", "SESSION_USER"),
        ("sha1", "SHA1"),
        ("sha256", "SHA256"),
        ("sha512", "SHA512"),
        ("sign", "SIGN"),
        ("sin", "SIN"),
        ("sinh", "SINH"),
        ("split", "SPLIT"),
        ("sqrt", "SQRT"),
        ("st_accum", "ST_ACCUM"),
        ("st_area", "ST_AREA"),
        ("st_asbinary", "ST_ASBINARY"),
        ("st_asgeojson", "ST_ASGEOJSON"),
        ("st_askml", "ST_ASKML"),
        ("st_astext", "ST_ASTEXT"),
        ("st_boundary", "ST_BOUNDARY"),
        ("st_buffer", "ST_BUFFER"),
        ("st_bufferwithtolerance", "ST_BUFFERWITHTOLERANCE"),
        ("st_centroid", "ST_CENTROID"),
        ("st_centroid_agg", "ST_CENTROID_AGG"),
        ("st_closestpoint", "ST_CLOSESTPOINT"),
        ("st_contains", "ST_CONTAINS"),
        ("st_coveredby", "ST_COVEREDBY"),
        ("st_covers", "ST_COVERS"),
        ("st_difference", "ST_DIFFERENCE"),
        ("st_dimension", "ST_DIMENSION"),
        ("st_disjoint", "ST_DISJOINT"),
        ("st_distance", "ST_DISTANCE"),
        ("st_dwithin", "ST_DWITHIN"),
        ("st_equals", "ST_EQUALS"),
        ("st_geogfromgeojson", "ST_GEOGFROMGEOJSON"),
        ("st_geogfromkml", "ST_GEOGFROMKML"),
        ("st_geogfromtext", "ST_GEOGFROMTEXT"),
        ("st_geogfromwkb", "ST_GEOGFROMWKB"),
        ("st_geogpoint", "ST_GEOGPOINT"),
        ("st_geogpointfromgeohash", "ST_GEOGPOINTFROMGEOHASH"),
        ("st_geohash", "ST_GEOHASH"),
        ("st_intersection", "ST_INTERSECTION"),
        ("st_intersects", "ST_INTERSECTS"),
        ("st_intersectsbox", "ST_INTERSECTSBOX"),
        ("st_iscollection", "ST_ISCOLLECTION"),
        ("st_isempty", "ST_ISEMPTY"),
        ("st_length", "ST_LENGTH"),
        ("st_makeline", "ST_MAKELINE"),
        ("st_makepolygon", "ST_MAKEPOLYGON"),
        ("st_makepolygonoriented", "ST_MAKEPOLYGONORIENTED"),
        ("st_maxdistance", "ST_MAXDISTANCE"),
        ("st_numpoints", "ST_NUMPOINTS"),
        ("st_perimeter", "ST_PERIMETER"),
        ("st_simplify", "ST_SIMPLIFY"),
        ("st_snaptogrid", "ST_SNAPTOGRID"),
        ("st_touches", "ST_TOUCHES"),
        ("st_unaryunion", "ST_UNARYUNION"),
        ("st_union", "ST_UNION"),
        ("st_union_agg", "ST_UNION_AGG"),
        ("st_within", "ST_WITHIN"),
        ("st_x", "ST_X"),
        ("st_y", "ST_Y"),
        ("starts_with", "STARTS_WITH"),
        ("stddev_pop", "STDDEV_POP"),
        ("stddev_samp", "STDDEV_SAMP"),
        ("string", "STRING"),
        ("string_agg", "STRING_AGG"),
        ("strpos", "STRPOS"),
        ("substr", "SUBSTR"),
        ("sum", "SUM"),
        ("tan", "TAN"),
        ("tanh", "TANH"),
        ("time", "TIME"),
        ("time_add", "TIME_ADD"),
        ("time_diff", "TIME_DIFF"),
        ("time_sub", "TIME_SUB"),
        ("time_trunc", "TIME_TRUNC"),
        ("timestamp", "TIMESTAMP"),
        ("timestamp_add", "TIMESTAMP_ADD"),
        ("timestamp_diff", "TIMESTAMP_DIFF"),
        ("timestamp_from_unix_micros", "TIMESTAMP_FROM_UNIX_MICROS"),
        ("timestamp_from_unix_millis", "TIMESTAMP_FROM_UNIX_MILLIS"),
        ("timestamp_from_unix_seconds", "TIMESTAMP_FROM_UNIX_SECONDS"),
        ("timestamp_micros", "TIMESTAMP_MICROS"),
        ("timestamp_millis", "TIMESTAMP_MILLIS"),
        ("timestamp_seconds", "TIMESTAMP_SECONDS"),
        ("timestamp_sub", "TIMESTAMP_SUB"),
        ("timestamp_trunc", "TIMESTAMP_TRUNC"),
        ("to_base32", "TO_BASE32"),
        ("to_base64", "TO_BASE64"),
        ("to_code_points", "TO_CODE_POINTS"),
        ("to_hex", "TO_HEX"),
        ("to_json_string", "TO_JSON_STRING"),
        ("to_proto", "TO_PROTO"),
        ("trim", "TRIM"),
        ("trunc", "TRUNC"),
        ("unix_date", "UNIX_DATE"),
        ("unix_micros", "UNIX_MICROS"),
        ("unix_millis", "UNIX_MILLIS"),
        ("unix_seconds", "UNIX_SECONDS"),
        ("upper", "UPPER"),
        ("var_pop", "VAR_POP"),
        ("var_samp", "VAR_SAMP"),
    ];
    assert(r@.map_values(|p: (&'static str, &'static str)| (p.0@, p.1@)) =~= bulk_rows_spec());
    r
}

pub fn base_built_in_functions() -> (r: Vec<(&'static str, &'static str)>)
    ensures
        r@.map_values(|p: (&'static str, &'static str)| (p.0@, p.1@)) == base_functions_spec(),
{
    let r = vec![
        ("ToFloat64", "CAST(%s AS FLOAT64)"),
        ("ToInt64", "CAST(%s AS INT64)"),
        ("ToUInt64", "CAST(%s AS UINT64)"),
        ("ToString", "CAST(%s AS STRING)"),
        ("1", "MIN(%s)"),
        ("Agg+", "SUM(%s)"),
        ("Agg++", "ARRAY_CONCAT_AGG(%s)"),
        ("Count", "APPROX_COUNT_DISTINCT(%s)"),
        ("ExactCount", "COUNT(DISTINCT %s)"),
        ("List", "ARRAY_AGG(%s)"),
        ("Set", "ARRAY_AGG(DISTINCT %s)"),
        ("SomeValue", "ANY_VALUE(%s)"),
        ("Max", "MAX(%s)"),
        ("Min", "MIN(%s)"),
        ("Avg", "AVG(%s)"),
        ("Sum", "SUM(%s)"),
        ("Array", "ARRAY_AGG(%s)"),
        ("StringAgg", "GROUP_CONCAT(%s)"),
        ("Median", "APPROX_QUANTILES(%s, 2)[OFFSET(1)]"),
        ("!", "NOT %s"),
        ("-", "- %s"),
        ("Concat", "ARRAY_CONCAT({0}, {1})"),
        ("DateAddDay", "DATE_ADD({0}, INTERVAL {1} DAY)"),
        ("DateDiffDay", "DATE_DIFF({0}, {1}, DAY)"),
        ("Element", "{0}[OFFSET({1})]"),
        ("IsNull", "(%s IS NULL)"),
        ("Join", "ARRAY_TO_STRING(%s)"),
        ("Like", "({0} LIKE {1})"),
        ("Range", "GENERATE_ARRAY(0, %s - 1)"),
        ("RangeOf", "GENERATE_ARRAY(0, ARRAY_LENGTH(%s) - 1)"),
        ("Size", "ARRAY_LENGTH(%s)"),
        ("Sort", "ARRAY(SELECT x FROM UNNEST(%s) as x ORDER BY x)"),
        ("Split", "SPLIT({0}, {1})"),
        ("TimestampAddDays", "TIMESTAMP_ADD({0}, INTERVAL {1} DAY)"),
        ("Unique", "ARRAY(SELECT DISTINCT x FROM UNNEST(%s) as x ORDER BY x)"),
        ("ValueOfUnnested", "%s"),
        ("MagicalEntangle", "{0}"),
        ("Container", "%s"),
        ("Constraint", "%s"),
        ("Aggr", "%s"),
        ("Abs", "ABS(%s)"),
        ("Exp", "EXP(%s)"),
        ("Log", "LOG(%s)"),
        ("Sin", "SIN(%s)"),
        ("Cos", "COS(%s)"),
        ("Sqrt", "SQRT(%s)"),
        ("Floor", "FLOOR(%s)"),
        ("Ceiling", "CEIL(%s)"),
        ("Round", "ROUND(%s)"),
        ("Pow", "POW({0}, {1})"),
        ("Length", "LENGTH(%s)"),
        ("Replace", "REPLACE({0}, {1}, {2})"),
        ("Substr", "SUBSTR({0}, {1}, {2})"),
        ("Upper", "UPPER(%s)"),
        ("Lower", "LOWER(%s)"),
        ("Trim", "TRIM(%s)"),
    ];
    assert(r@.map_values(|p: (&'static str, &'static str)| (p.0@, p.1@)) =~= base_functions_spec());
    r
}

pub fn base_infix_operators() -> (r: Vec<(&'static str, &'static str)>)
    ensures
        r@.map_values(|p: (&'static str, &'static str)| (p.0@, p.1@)) == base_infix_spec(),
{
    let r = vec![
        ("==", "%s = %s"),
        ("!=", "%s != %s"),
        ("<=", "%s <= %s"),
        ("<", "%s < %s"),
        (">=", "%s >= %s"),
        (">", "%s > %s"),
        ("+", "(%s) + (%s)"),
        ("-", "(%s) - (%s)"),
        ("*", "(%s) * (%s)"),
        ("/", "(%s) / (%s)"),
        ("^", "POW(%s, %s)"),
        ("%", "MOD(%s, %s)"),
        ("++", "CONCAT(%s, %s)"),
        ("||", "%s OR %s"),
        ("&&", "%s AND %s"),
        ("in", "%s IN UNNEST(%s)"),
        ("is", "%s IS %s"),
        ("is not", "%s IS NOT %s"),
    ];
    assert(r@.map_values(|p: (&'static str, &'static str)| (p.0@, p.1@)) =~= base_infix_spec());
    r
}

} // verus!
