//! Embeddings: batches of token sequences for the model, and answers of the
//! embedding services.
use vstd::prelude::*;
use vstd::string::*;

use crate::binary32::{narrow, narrowed};
use crate::binary64::Binary64;
use crate::json::{field, find_field, Json};
use crate::text::{trim_text, trimmed};

verus! {

/// Longest token sequence that the model takes.
pub const MAX_SEQ_LEN: usize = 512;

/// Length of the vectors of the local model.
pub const LOCAL_DIM: usize = 768;

/// Number of texts in a batch: as many as are asked for, or all; at least one.
pub fn batch_length(batch_size: Option<usize>, texts: usize) -> (r: usize)
    ensures
        r == (match batch_size {
            Some(n) => if n > 0 {
                n
            } else {
                1
            },
            None => if texts > 0 {
                texts
            } else {
                1
            },
        }),
        r > 0,
{
    let wanted: usize = match batch_size {
        Some(n) => n,
        None => texts,
    };
    if wanted > 0 {
        wanted
    } else {
        1
    }
}

/// The end of batch `i` of `size` texts among `n`.
pub open spec fn batch_end(n: int, size: int, i: int) -> int {
    if (i + 1) * size < n {
        (i + 1) * size
    } else {
        n
    }
}

/// The batches: where each begins and ends.
pub fn batches(n: usize, size: usize) -> (r: Vec<(usize, usize)>)
    requires
        size > 0,
    ensures
        forall|i: int|
            0 <= i < r@.len() ==> (#[trigger] r@[i]).0 == i * size && r@[i].1 == batch_end(
                n as int,
                size as int,
                i,
            ) && r@[i].0 < r@[i].1 <= n,
        n == 0 ==> r@.len() == 0,
        n > 0 ==> r@.len() > 0 && r@.last().1 == n,
{
    let mut r: Vec<(usize, usize)> = Vec::new();
    let mut start: usize = 0;
    while start < n
        invariant
            size > 0,
            start <= n,
            start == r@.len() * size || start == n,
            start < n ==> start == r@.len() * size,
            forall|i: int|
                0 <= i < r@.len() ==> (#[trigger] r@[i]).0 == i * size && r@[i].1 == batch_end(
                    n as int,
                    size as int,
                    i,
                ) && r@[i].0 < r@[i].1 <= n,
            start > 0 ==> r@.len() > 0 && r@.last().1 == start,
            start == 0 ==> r@.len() == 0,
        decreases n - start,
    {
        let end: usize = if n - start > size {
            start + size
        } else {
            n
        };
        proof {
            let k = r@.len() as int;
            assert((k + 1) * size == k * size + size) by (nonlinear_arith);
        }
        r.push((start, end));
        start = end;
    }
    r
}

/// The tokens of one text, with the attention mask and the token types.
#[derive(Debug)]
pub struct Encoding {
    pub ids: Vec<u32>,
    pub mask: Vec<u32>,
    pub types: Vec<u32>,
}

/// Every token has a mask and a type.
pub open spec fn is_complete(e: Encoding) -> bool {
    e.mask@.len() == e.ids@.len() && e.types@.len() == e.ids@.len()
}

/// Token sequences of equal length, one after the other.
#[derive(Debug)]
pub struct Batch {
    pub rows: usize,
    pub width: usize,
    pub input_ids: Vec<i64>,
    pub attention_mask: Vec<i64>,
    pub token_type_ids: Vec<i64>,
}

/// Length of the longest sequence.
pub open spec fn longest(encodings: Seq<Encoding>) -> nat
    decreases encodings.len(),
{
    if encodings.len() == 0 {
        0
    } else {
        let before = longest(encodings.drop_last());
        let own = encodings.last().ids@.len();
        if own > before {
            own
        } else {
            before
        }
    }
}

/// The common length of the sequences of a batch: that of the longest, up to the
/// most that the model takes.
pub open spec fn batch_width(encodings: Seq<Encoding>) -> nat {
    if longest(encodings) < 512 {
        longest(encodings)
    } else {
        512
    }
}

/// A sequence in a row of the given width: cut off, or padded with zeros.
pub open spec fn padded(values: Seq<u32>, width: nat) -> Seq<i64> {
    Seq::new(
        width,
        |i: int|
            if i < values.len() {
                values[i] as i64
            } else {
                0
            },
    )
}

/// The rows of a batch, one after the other.
pub open spec fn padded_rows(rows: Seq<Seq<u32>>, width: nat) -> Seq<i64>
    decreases rows.len(),
{
    if rows.len() == 0 {
        Seq::empty()
    } else {
        padded_rows(rows.drop_last(), width) + padded(rows.last(), width)
    }
}

pub open spec fn all_ids(encodings: Seq<Encoding>) -> Seq<Seq<u32>> {
    Seq::new(encodings.len(), |i: int| encodings[i].ids@)
}

pub open spec fn all_masks(encodings: Seq<Encoding>) -> Seq<Seq<u32>> {
    Seq::new(encodings.len(), |i: int| encodings[i].mask@)
}

pub open spec fn all_types(encodings: Seq<Encoding>) -> Seq<Seq<u32>> {
    Seq::new(encodings.len(), |i: int| encodings[i].types@)
}

/// Adds one row.
fn push_row(out: &mut Vec<i64>, values: &Vec<u32>, width: usize)
    ensures
        final(out)@ == old(out)@ + padded(values@, width as nat),
{
    let n: usize = values.len();
    let ghost before = out@;
    let ghost row = padded(values@, width as nat);
    let mut i: usize = 0;
    assert(before + row.take(0) =~= before);
    while i < width
        invariant
            i <= width,
            n == values@.len(),
            row == padded(values@, width as nat),
            out@ == before + row.take(i as int),
        decreases width - i,
    {
        let value: i64 = if i < n {
            values[i] as i64
        } else {
            0
        };
        out.push(value);
        i = i + 1;
        assert(out@ =~= before + row.take(i as int));
    }
    assert(row.take(width as int) =~= row);
}

/// Brings token sequences to a common length.
pub fn pad_batch(encodings: &Vec<Encoding>) -> (r: Batch)
    requires
        forall|i: int| 0 <= i < encodings@.len() ==> is_complete(#[trigger] encodings@[i]),
    ensures
        r.rows == encodings@.len(),
        r.width == batch_width(encodings@),
        r.input_ids@ == padded_rows(all_ids(encodings@), r.width as nat),
        r.attention_mask@ == padded_rows(all_masks(encodings@), r.width as nat),
        r.token_type_ids@ == padded_rows(all_types(encodings@), r.width as nat),
{
    let rows: usize = encodings.len();
    let mut most: usize = 0;
    let mut i: usize = 0;
    assert(encodings@.take(0) =~= Seq::empty());
    while i < rows
        invariant
            i <= rows,
            rows == encodings@.len(),
            most == longest(encodings@.take(i as int)),
        decreases rows - i,
    {
        assert(encodings@.take(i + 1).drop_last() =~= encodings@.take(i as int));
        let own: usize = encodings[i].ids.len();
        if own > most {
            most = own;
        }
        i = i + 1;
    }
    assert(encodings@.take(rows as int) =~= encodings@);
    let width: usize = if most < MAX_SEQ_LEN {
        most
    } else {
        MAX_SEQ_LEN
    };
    let mut input_ids: Vec<i64> = Vec::new();
    let mut attention_mask: Vec<i64> = Vec::new();
    let mut token_type_ids: Vec<i64> = Vec::new();
    let ghost ids = all_ids(encodings@);
    let ghost masks = all_masks(encodings@);
    let ghost types = all_types(encodings@);
    let mut b: usize = 0;
    proof {
        assert(ids.take(0) =~= Seq::empty());
        assert(masks.take(0) =~= Seq::empty());
        assert(types.take(0) =~= Seq::empty());
    }
    while b < rows
        invariant
            b <= rows,
            rows == encodings@.len(),
            ids == all_ids(encodings@),
            masks == all_masks(encodings@),
            types == all_types(encodings@),
            input_ids@ == padded_rows(ids.take(b as int), width as nat),
            attention_mask@ == padded_rows(masks.take(b as int), width as nat),
            token_type_ids@ == padded_rows(types.take(b as int), width as nat),
        decreases rows - b,
    {
        proof {
            assert(ids.take(b + 1).drop_last() =~= ids.take(b as int));
            assert(masks.take(b + 1).drop_last() =~= masks.take(b as int));
            assert(types.take(b + 1).drop_last() =~= types.take(b as int));
        }
        push_row(&mut input_ids, &encodings[b].ids, width);
        push_row(&mut attention_mask, &encodings[b].mask, width);
        push_row(&mut token_type_ids, &encodings[b].types, width);
        b = b + 1;
    }
    proof {
        assert(ids.take(rows as int) =~= ids);
        assert(masks.take(rows as int) =~= masks);
        assert(types.take(rows as int) =~= types);
    }
    Batch { rows, width, input_ids, attention_mask, token_type_ids }
}

/// The positions of a row that the model attends to.
pub open spec fn attended(row: Seq<i64>) -> Seq<int>
    decreases row.len(),
{
    if row.len() == 0 {
        Seq::empty()
    } else if row.last() > 0 {
        attended(row.drop_last()).push(row.len() - 1)
    } else {
        attended(row.drop_last())
    }
}

/// The positions of row `b` over which its vector is averaged.
pub fn attended_positions(batch: &Batch, b: usize) -> (r: Vec<usize>)
    requires
        b < batch.rows,
        batch.attention_mask@.len() == batch.rows * batch.width,
    ensures
        ({
            let row = batch.attention_mask@.subrange(b * batch.width, (b + 1) * batch.width);
            &&& r@.len() == attended(row).len()
            &&& forall|i: int| 0 <= i < r@.len() ==> #[trigger] r@[i] == attended(row)[i]
        }),
{
    let w: usize = batch.width;
    let total: usize = batch.attention_mask.len();
    proof {
        let k = batch.rows as int;
        assert(b * w + w == (b + 1) * w) by (nonlinear_arith);
        assert((b + 1) * w <= k * w) by (nonlinear_arith)
            requires
                b + 1 <= k,
                w >= 0,
        ;
        assert(b * w >= 0) by (nonlinear_arith)
            requires
                b >= 0,
                w >= 0,
        ;
    }
    let start: usize = b * w;
    let ghost row = batch.attention_mask@.subrange(start as int, start + w);
    let mut r: Vec<usize> = Vec::new();
    let mut s: usize = 0;
    assert(row.take(0) =~= Seq::empty());
    while s < w
        invariant
            s <= w,
            start + w <= total,
            total == batch.attention_mask@.len(),
            row == batch.attention_mask@.subrange(start as int, start + w),
            r@.len() == attended(row.take(s as int)).len(),
            forall|i: int|
                0 <= i < r@.len() ==> #[trigger] r@[i] == attended(row.take(s as int))[i],
        decreases w - s,
    {
        assert(row.take(s + 1).drop_last() =~= row.take(s as int));
        if batch.attention_mask[start + s] > 0 {
            r.push(s);
        }
        s = s + 1;
    }
    assert(row.take(w as int) =~= row);
    r
}

/// Which service or model makes the embeddings.
#[derive(Clone, Copy, Debug, PartialEq, Eq, Structural)]
pub enum EmbeddingBackend {
    Voyage,
    OpenAi,
    Local,
}

/// How embeddings are configured.
#[derive(Debug)]
pub struct EmbeddingsConfig {
    pub backend: EmbeddingBackend,
    pub api_key: Option<String>,
    pub model: String,
    /// Texts in a batch of the local model; zero for all at once.
    pub batch_size: usize,
    pub cache_dir: Option<String>,
}

/// What makes the embeddings, and with which settings.
#[derive(Debug)]
pub enum BackendPlan {
    Voyage { api_key: String, model: String },
    OpenAi { api_key: String, model: String },
    Local { batch_size: Option<usize>, cache_dir: Option<String> },
}

/// The key is the one configured, or empty.
pub open spec fn is_key(key: String, configured: Option<String>) -> bool {
    match configured {
        Some(k) => key@ == k@,
        None => key@.len() == 0,
    }
}

/// A directory counts only where it is not blank.
pub open spec fn cache_directory(configured: Option<String>) -> Option<Seq<char>> {
    match configured {
        Some(p) => if trimmed(p@).len() == 0 {
            None
        } else {
            Some(trimmed(p@))
        },
        None => None,
    }
}

/// Chooses what makes the embeddings.
pub fn make_backend(cfg: &EmbeddingsConfig) -> (r: BackendPlan)
    ensures
        match cfg.backend {
            EmbeddingBackend::Voyage => r is Voyage && is_key(r->Voyage_api_key, cfg.api_key)
                && r->Voyage_model@ == cfg.model@,
            EmbeddingBackend::OpenAi => r is OpenAi && is_key(r->OpenAi_api_key, cfg.api_key)
                && r->OpenAi_model@ == cfg.model@,
            EmbeddingBackend::Local => {
                &&& r is Local
                &&& r->batch_size == if cfg.batch_size == 0 {
                    None
                } else {
                    Some(cfg.batch_size)
                }
                &&& (match r->cache_dir {
                    Some(p) => Some(p@),
                    None => None,
                }) == cache_directory(cfg.cache_dir)
            },
        },
{
    match cfg.backend {
        EmbeddingBackend::Voyage => BackendPlan::Voyage {
            api_key: key_or_empty(&cfg.api_key),
            model: cfg.model.clone(),
        },
        EmbeddingBackend::OpenAi => BackendPlan::OpenAi {
            api_key: key_or_empty(&cfg.api_key),
            model: cfg.model.clone(),
        },
        EmbeddingBackend::Local => {
            let batch_size: Option<usize> = if cfg.batch_size == 0 {
                None
            } else {
                Some(cfg.batch_size)
            };
            let cache_dir: Option<String> = match &cfg.cache_dir {
                Some(p) => {
                    let t = trim_text(p.as_str());
                    if t.as_str().is_empty() {
                        None
                    } else {
                        Some(t)
                    }
                },
                None => None,
            };
            BackendPlan::Local { batch_size, cache_dir }
        },
    }
}

fn key_or_empty(key: &Option<String>) -> (r: String)
    ensures
        is_key(r, *key),
{
    match key {
        Some(k) => k.clone(),
        None => String::new(),
    }
}

/// Why the answer of an embedding service cannot be read.
#[derive(Clone, Copy, Debug, PartialEq, Eq, Structural)]
pub enum EmbeddingError {
    /// The answer has no list of data.
    MissingData,
    /// An item of the data has no list of numbers.
    MissingEmbedding,
    /// An embedding holds something else than a number.
    NotANumber,
}

/// The list in the field of that name.
pub open spec fn list_field(v: Json, name: Seq<char>) -> Option<Seq<Json>> {
    match field(v, name) {
        Some(Json::List(items)) => Some(items@),
        _ => None,
    }
}

/// The number that a value is.
pub open spec fn number_of(v: Json) -> Option<Binary64> {
    match v {
        Json::Number(n) => n.number,
        _ => None,
    }
}

/// The numbers of an embedding in single precision, by their bit patterns.
pub open spec fn is_vector(r: Seq<u32>, values: Seq<Json>) -> bool {
    r.len() == values.len() && forall|i: int|
        0 <= i < r.len() ==> is_narrowed(#[trigger] r[i], values[i])
}

/// A value is a number, and `bits` its bit pattern in single precision.
pub open spec fn is_narrowed(bits: u32, v: Json) -> bool {
    number_of(v) is Some && is_single(bits, number_of(v)->0)
}

/// `bits` is the bit pattern of a number in single precision.
pub open spec fn is_single(bits: u32, v: Binary64) -> bool {
    if v.is_nan() {
        bits == 0x7FC0_0000
    } else {
        let pattern = if bits >= 0x8000_0000 {
            (bits - 0x8000_0000) as u32
        } else {
            bits
        };
        &&& bits >= 0x8000_0000 <==> v.is_negative()
        &&& pattern <= 0x7F80_0000
        &&& crate::binary32::single_units(pattern) == narrowed(
            crate::binary64::pattern_units(v.pattern()),
        )
    }
}

/// Why an item of the data cannot be read, if so.
pub open spec fn item_error(item: Json) -> Option<EmbeddingError> {
    match list_field(item, "embedding"@) {
        None => Some(EmbeddingError::MissingEmbedding),
        Some(values) => if exists|i: int|
            0 <= i < values.len() && number_of(#[trigger] values[i]) is None {
            Some(EmbeddingError::NotANumber)
        } else {
            None
        },
    }
}

/// The error of the first item that cannot be read.
pub open spec fn first_item_error(items: Seq<Json>) -> Option<EmbeddingError>
    decreases items.len(),
{
    if items.len() == 0 {
        None
    } else if item_error(items[0]) is Some {
        item_error(items[0])
    } else {
        first_item_error(items.drop_first())
    }
}

/// Why an answer cannot be read, if so.
pub open spec fn answer_error(resp: Json) -> Option<EmbeddingError> {
    match list_field(resp, "data"@) {
        None => Some(EmbeddingError::MissingData),
        Some(items) => first_item_error(items),
    }
}

fn find_list<'a>(v: &'a Json, name: &str) -> (r: Option<&'a Vec<Json>>)
    ensures
        (match r {
            Some(items) => Some(items@),
            None => None,
        }) == list_field(*v, name@),
{
    match find_field(v, name) {
        Some(Json::List(items)) => Some(items),
        _ => None,
    }
}

/// The vector of one item.
fn read_item(item: &Json) -> (r: Result<Vec<u32>, EmbeddingError>)
    ensures
        match r {
            Ok(v) => item_error(*item) is None && is_vector(
                v@,
                list_field(*item, "embedding"@)->0,
            ),
            Err(e) => item_error(*item) == Some(e),
        },
{
    let values = match find_list(item, "embedding") {
        Some(values) => values,
        None => return Err(EmbeddingError::MissingEmbedding),
    };
    let n: usize = values.len();
    let mut r: Vec<u32> = Vec::new();
    let mut i: usize = 0;
    while i < n
        invariant
            i <= n,
            n == values@.len(),
            list_field(*item, "embedding"@) == Some(values@),
            r@.len() == i,
            forall|k: int| 0 <= k < i ==> is_narrowed(#[trigger] r@[k], values@[k]),
        decreases n - i,
    {
        let number: Option<Binary64> = match &values[i] {
            Json::Number(n) => n.number,
            _ => None,
        };
        assert(number == number_of(values@[i as int]));
        match number {
            Some(v) => {
                let bits: u32 = narrow(v);
                assert(is_single(bits, v));
                r.push(bits);
            },
            None => {
                return Err(EmbeddingError::NotANumber);
            },
        }
        i = i + 1;
    }
    proof {
        assert forall|k: int| 0 <= k < values@.len() implies number_of(
            #[trigger] values@[k],
        ) is Some by {
            assert(is_narrowed(r@[k], values@[k]));
        }
    }
    Ok(r)
}

/// Reads the vectors from the answer of an embedding service.
pub fn parse_embeddings(resp: &Json) -> (r: Result<Vec<Vec<u32>>, EmbeddingError>)
    ensures
        match r {
            Ok(vectors) => {
                let items = list_field(*resp, "data"@)->0;
                &&& answer_error(*resp) is None
                &&& vectors@.len() == items.len()
                &&& forall|i: int|
                    0 <= i < items.len() ==> is_vector(
                        (#[trigger] vectors@[i])@,
                        list_field(items[i], "embedding"@)->0,
                    )
            },
            Err(e) => answer_error(*resp) == Some(e),
        },
{
    let items = match find_list(resp, "data") {
        Some(items) => items,
        None => return Err(EmbeddingError::MissingData),
    };
    let n: usize = items.len();
    let mut r: Vec<Vec<u32>> = Vec::new();
    let mut i: usize = 0;
    assert(items@.skip(0) =~= items@);
    while i < n
        invariant
            i <= n,
            n == items@.len(),
            list_field(*resp, "data"@) == Some(items@),
            r@.len() == i,
            first_item_error(items@) == first_item_error(items@.skip(i as int)),
            forall|k: int|
                0 <= k < i ==> is_vector(
                    (#[trigger] r@[k])@,
                    list_field(items@[k], "embedding"@)->0,
                ),
        decreases n - i,
    {
        proof {
            let rest = items@.skip(i as int);
            assert(rest[0] == items@[i as int]);
            assert(rest.drop_first() =~= items@.skip(i + 1));
        }
        match read_item(&items[i]) {
            Ok(v) => {
                r.push(v);
            },
            Err(e) => {
                return Err(e);
            },
        }
        i = i + 1;
    }
    Ok(r)
}

/// The batches follow one another: where one ends before the last text, the
/// next one begins.
pub proof fn law_batches_are_consecutive(n: int, size: int, i: int)
    requires
        n > 0,
        size > 0,
        0 <= i,
        (i + 1) * size < n,
    ensures
        batch_end(n, size, i) == (i + 1) * size,
{
}

/// A padded row has the given width and begins with the sequence, as far as it
/// goes.
pub proof fn law_padding_keeps_the_sequence(values: Seq<u32>, width: nat, i: int)
    requires
        0 <= i < width,
    ensures
        padded(values, width).len() == width,
        i < values.len() ==> padded(values, width)[i] == values[i] as i64,
        i >= values.len() ==> padded(values, width)[i] == 0,
{
}

} // verus!
