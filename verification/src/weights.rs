//! The tensors of a checkpoint, from one safetensors file or several.

use safetensors::tensor::TensorInfo as Stored;
use safetensors::Dtype as Kind;
use vstd::hash_map::StringHashMap;
use vstd::prelude::*;

use crate::chars::{same_text, texts};
use crate::json::{json_of, optional_texts, parse_json, read_texts_under, texts_under};
use crate::raw_tensor::{as_slice, bytes_of, elements, slice_bytes, Dtype, RawTensor};

verus! {

/// The header of a safetensors file.
#[verifier::external_type_specification]
#[verifier::external_body]
pub struct ExMetadata(safetensors::tensor::Metadata);

/// Why a safetensors file is refused.
#[verifier::external_type_specification]
#[verifier::external_body]
pub struct ExSafeTensorError(safetensors::SafeTensorError);

/// What a header says of one tensor.
pub struct TensorEntryView {
    pub dtype: Dtype,
    pub shape: Seq<usize>,
    pub begin: int,
    pub end: int,
}

/// What a header says of one tensor; the offsets count from the end of the
/// header.
#[derive(Debug)]
pub struct TensorEntry {
    pub name: String,
    pub dtype: Dtype,
    pub shape: Vec<usize>,
    pub offsets: (usize, usize),
}

impl View for TensorEntry {
    type V = TensorEntryView;

    open spec fn view(&self) -> TensorEntryView {
        TensorEntryView {
            dtype: self.dtype,
            shape: self.shape@,
            begin: self.offsets.0 as int,
            end: self.offsets.1 as int,
        }
    }
}

/// The tensors of a header, by name.
pub uninterp spec fn header_tensors(header: safetensors::tensor::Metadata) -> Map<
    Seq<char>,
    TensorEntryView,
>;

/// The length of the header of a safetensors file, and its tensors by name, if
/// the bytes are such a file.
pub uninterp spec fn safetensors_header(bytes: Seq<u8>) -> Option<
    (int, Map<Seq<char>, TensorEntryView>),
>;

/// Whether the bytes of a tensor lie in the part of a file that follows the
/// header, and are as many as its elements take.
pub open spec fn entry_fits(entry: TensorEntryView, header_len: int, file_len: int) -> bool {
    &&& 0 <= entry.begin <= entry.end
    &&& header_len + 8 + entry.end <= file_len
    &&& entry.dtype != Dtype::Other ==> entry.end - entry.begin == elements(entry.shape)
        * entry.dtype.width()
}

/// The length of the header, as the first eight bytes of a file give it.
pub open spec fn header_len(bytes: Seq<u8>) -> int {
    bytes[0] + 0x100 * (bytes[1] + 0x100 * (bytes[2] + 0x100 * (bytes[3] + 0x100 * (bytes[4] + 0x100
        * (bytes[5] + 0x100 * (bytes[6] + 0x100 * bytes[7]))))))
}

/// The tensors of a header, by name, of which the given bytes are the JSON text,
/// if they are that.
pub uninterp spec fn header_json(json: Seq<u8>) -> Option<Map<Seq<char>, TensorEntryView>>;

/// `serde_json::from_slice` at the type of a header: whether it succeeds, and
/// what the header holds, are functions of the bytes alone.
#[verifier::external_body]
fn parse_header(json: &[u8]) -> (r: Result<safetensors::tensor::Metadata, serde_json::Error>)
    ensures
        match r {
            Ok(header) => header_json(json@) == Some(header_tensors(header)),
            Err(_) => header_json(json@) is None,
        },
{
    serde_json::from_slice(json)
}

/// Whether a tensor ends too far behind a header of `n` bytes for a size to
/// tell where.
pub open spec fn ends_beyond(entry: TensorEntryView, n: int) -> bool {
    entry.end + n + 8 > usize::MAX
}

/// Whether a file has a whole header, and some tensor of it ends too far behind
/// it.
pub open spec fn oversized(bytes: Seq<u8>) -> bool {
    let n = header_len(bytes);
    &&& bytes.len() >= 8
    &&& n + 8 <= bytes.len()
    &&& header_json(bytes.subrange(8, n + 8)) matches Some(tensors)
    &&& exists|name: Seq<char>| #[trigger]
        tensors.contains_key(name) && ends_beyond(tensors[name], n)
}

/// Finds out whether some tensor ends too far behind the header.
fn is_oversized(bytes: &[u8]) -> (r: bool)
    ensures
        r == oversized(bytes@),
{
    if bytes.len() < 8 {
        return false;
    }
    let n: u64 = bytes[0] as u64 + 0x100 * (bytes[1] as u64 + 0x100 * (bytes[2] as u64 + 0x100 * (
    bytes[3] as u64 + 0x100 * (bytes[4] as u64 + 0x100 * (bytes[5] as u64 + 0x100 * (bytes[6] as u64
        + 0x100 * (bytes[7] as u64)))))));
    assert(n == header_len(bytes@));
    if n > (bytes.len() - 8) as u64 {
        return false;
    }
    let stop = n as usize + 8;
    let ghost json = bytes@.subrange(8, n + 8);
    match parse_header(vstd::slice::slice_subrange(bytes, 8, stop)) {
        Ok(header) => {
            let entries = list_tensors(&header);
            let r = end_beyond(entries.as_slice(), stop);
            proof {
                let all = header_tensors(header);
                assert(header_json(json) == Some(all));
                if r {
                    let i = choose|i: int|
                        0 <= i < entries@.len() && (#[trigger] entries@[i]).offsets.1 + stop
                            > usize::MAX;
                    let name = entries@[i].name@;
                    assert(all.contains_key(name) && ends_beyond(all[name], n as int));
                }
                if oversized(bytes@) {
                    let name = choose|name: Seq<char>| #[trigger]
                        all.contains_key(name) && ends_beyond(all[name], n as int);
                    let i = choose|i: int|
                        0 <= i < entries@.len() && (#[trigger] entries@[i]).name@ == name;
                    assert(all[entries@[i].name@] == entries@[i]@);
                }
            }
            r
        },
        Err(_) => false,
    }
}

/// Whether some of the listed tensors ends beyond what a size can tell, `stop`
/// bytes added.
fn end_beyond(entries: &[TensorEntry], stop: usize) -> (r: bool)
    ensures
        r <==> exists|i: int|
            0 <= i < entries@.len() && (#[trigger] entries@[i]).offsets.1 + stop > usize::MAX,
{
    let mut i: usize = 0;
    while i < entries.len()
        invariant
            i <= entries@.len(),
            forall|k: int|
                0 <= k < i ==> (#[trigger] entries@[k]).offsets.1 + stop <= usize::MAX,
        decreases entries@.len() - i,
    {
        if entries[i].offsets.1 > usize::MAX - stop {
            assert(entries@[i as int].offsets.1 + stop > usize::MAX);
            return true;
        }
        i += 1;
    }
    false
}

/// `SafeTensors::read_metadata`: whether the bytes are a safetensors file, the
/// length of its header and what the header holds are functions of the bytes.
/// Every tensor has been checked to lie in the file and to have the length
/// that its shape and its type ask for.
///
/// It adds the last offset to the length of the header without regard to
/// overflow, so files in which that sum does not fit are left out.
#[verifier::external_body]
fn read_metadata(bytes: &[u8]) -> (r: Result<
    (usize, safetensors::tensor::Metadata),
    safetensors::SafeTensorError,
>)
    requires
        !oversized(bytes@),
    ensures
        match r {
            Ok((n, header)) => {
                &&& safetensors_header(bytes@) == Some((n as int, header_tensors(header)))
                &&& n + 8 <= bytes@.len()
                &&& forall|name: Seq<char>| #[trigger]
                    header_tensors(header).contains_key(name) ==> entry_fits(
                        header_tensors(header)[name],
                        n as int,
                        bytes@.len() as int,
                    )
            },
            Err(_) => safetensors_header(bytes@) is None,
        },
{
    safetensors::SafeTensors::read_metadata(bytes)
}

/// Whether `entries` lists each tensor of `tensors` once.
pub open spec fn lists(entries: Seq<TensorEntry>, tensors: Map<Seq<char>, TensorEntryView>) -> bool {
    &&& forall|i: int|
        0 <= i < entries.len() ==> tensors.contains_key((#[trigger] entries[i]).name@)
            && tensors[entries[i].name@] == entries[i]@
    &&& forall|name: Seq<char>| #[trigger]
        tensors.contains_key(name) ==> exists|i: int|
            0 <= i < entries.len() && (#[trigger] entries[i]).name@ == name
    &&& forall|i: int, j: int|
        0 <= i < j < entries.len() ==> (#[trigger] entries[i]).name@ != (#[trigger] entries[j]).name@
}

/// `Metadata::tensors`: each tensor of the header once, in an order that is
/// left open.  Each of `safetensors::Dtype`'s variants goes to the one of its
/// name; a variant that a later version may add has none.
#[verifier::external_body]
fn list_tensors(header: &safetensors::tensor::Metadata) -> (r: Vec<TensorEntry>)
    ensures
        lists(r@, header_tensors(*header)),
{
    let entry = |(name, info): (String, &Stored)| TensorEntry {
        dtype: match info.dtype {
            Kind::BOOL => Dtype::BOOL, Kind::U8 => Dtype::U8, Kind::I8 => Dtype::I8,
            Kind::F8_E5M2 => Dtype::F8_E5M2, Kind::F8_E4M3 => Dtype::F8_E4M3,
            Kind::I16 => Dtype::I16, Kind::U16 => Dtype::U16, Kind::F16 => Dtype::F16,
            Kind::BF16 => Dtype::BF16, Kind::I32 => Dtype::I32, Kind::U32 => Dtype::U32,
            Kind::F32 => Dtype::F32, Kind::F64 => Dtype::F64, Kind::I64 => Dtype::I64,
            Kind::U64 => Dtype::U64, _ => Dtype::Other,
        },
        name,
        shape: info.shape.clone(),
        offsets: info.data_offsets,
    };
    header.tensors().into_iter().map(entry).collect()
}

/// Why weights cannot be loaded.
#[derive(Debug)]
pub enum WeightsError {
    /// A tensor of a file ends further behind its header than a size can tell.
    Oversized,
    /// A file is not a safetensors file.
    Safetensors { refused: safetensors::SafeTensorError },
    /// The index of shards is not JSON.
    Json { cause: serde_json::Error },
    /// The index of shards has no map of weights.
    InvalidIndex,
    /// There is neither an index nor a single file.
    NoWeights,
}

/// Whether a tensor is what a header says of it, with its bytes from the file.
pub open spec fn is_tensor(
    tensor: RawTensor,
    entry: TensorEntryView,
    bytes: Seq<u8>,
    header_len: int,
) -> bool {
    &&& tensor.dtype == entry.dtype
    &&& tensor.shape@ == entry.shape
    &&& bytes_of(tensor.data) == bytes.subrange(
        header_len + 8 + entry.begin,
        header_len + 8 + entry.end,
    )
}

/// Whether a map holds the tensors of a header, with their bytes.
pub open spec fn are_tensors(
    tensors: Map<Seq<char>, RawTensor>,
    entries: Map<Seq<char>, TensorEntryView>,
    bytes: Seq<u8>,
    header_len: int,
) -> bool {
    &&& tensors.dom() == entries.dom()
    &&& forall|name: Seq<char>| #[trigger]
        entries.contains_key(name) ==> is_tensor(tensors[name], entries[name], bytes, header_len)
}

/// Cuts the tensors that a header lists out of a file.
pub fn cut_tensors(buffer: &bytes::Bytes, header_len: usize, entries: Vec<TensorEntry>) -> (r:
    StringHashMap<RawTensor>)
    requires
        forall|i: int|
            0 <= i < entries@.len() ==> entry_fits(
                (#[trigger] entries@[i])@,
                header_len as int,
                bytes_of(*buffer).len() as int,
            ),
        bytes_of(*buffer).len() <= usize::MAX,
    ensures
        forall|name: Seq<char>| #[trigger]
            r@.contains_key(name) ==> exists|i: int|
                0 <= i < entries@.len() && (#[trigger] entries@[i]).name@ == name && is_tensor(
                    r@[name],
                    entries@[i]@,
                    bytes_of(*buffer),
                    header_len as int,
                ),
        forall|i: int| 0 <= i < entries@.len() ==> r@.contains_key((#[trigger] entries@[i]).name@),
{
    let mut r: StringHashMap<RawTensor> = StringHashMap::new();
    let mut k: usize = 0;
    while k < entries.len()
        invariant
            k <= entries@.len(),
            bytes_of(*buffer).len() <= usize::MAX,
            forall|i: int|
                0 <= i < entries@.len() ==> entry_fits(
                    (#[trigger] entries@[i])@,
                    header_len as int,
                    bytes_of(*buffer).len() as int,
                ),
            forall|name: Seq<char>| #[trigger]
                r@.contains_key(name) ==> exists|i: int|
                    0 <= i < k && (#[trigger] entries@[i]).name@ == name && is_tensor(
                        r@[name],
                        entries@[i]@,
                        bytes_of(*buffer),
                        header_len as int,
                    ),
            forall|i: int| 0 <= i < k ==> r@.contains_key((#[trigger] entries@[i]).name@),
        decreases entries@.len() - k,
    {
        let entry = &entries[k];
        assert(entry_fits(entries@[k as int]@, header_len as int, bytes_of(*buffer).len() as int));
        let data = slice_bytes(buffer, header_len + 8 + entry.offsets.0, header_len + 8 + entry.offsets.1);
        let tensor = RawTensor { data, shape: entry.shape.clone(), dtype: entry.dtype };
        let ghost r0 = r@;
        assert(is_tensor(tensor, entry@, bytes_of(*buffer), header_len as int)) by {
            assert(tensor.shape@ =~= entry.shape@);
        }
        r.insert(entry.name.clone(), tensor);
        proof {
            assert forall|name: Seq<char>| #[trigger] r@.contains_key(name) implies exists|i: int|
                0 <= i < k + 1 && (#[trigger] entries@[i]).name@ == name && is_tensor(
                    r@[name],
                    entries@[i]@,
                    bytes_of(*buffer),
                    header_len as int,
                ) by {
                if name == entry.name@ {
                    assert(entries@[k as int].name@ == name);
                } else {
                    assert(r0.contains_key(name));
                    let i = choose|i: int|
                        0 <= i < k && (#[trigger] entries@[i]).name@ == name && is_tensor(
                            r0[name],
                            entries@[i]@,
                            bytes_of(*buffer),
                            header_len as int,
                        );
                    assert(entries@[i].name@ == name);
                }
            }
        }
        k += 1;
    }
    r
}

/// Reads the tensors of a safetensors file.
pub fn load_safetensors(buffer: &bytes::Bytes) -> (r: Result<
    StringHashMap<RawTensor>,
    WeightsError,
>)
    ensures
        match r {
            Ok(tensors) => {
                &&& !oversized(bytes_of(*buffer))
                &&& safetensors_header(bytes_of(*buffer)) matches Some((n, entries))
                &&& are_tensors(tensors@, entries, bytes_of(*buffer), n)
            },
            Err(WeightsError::Oversized) => oversized(bytes_of(*buffer)),
            Err(WeightsError::Safetensors { .. }) => !oversized(bytes_of(*buffer))
                && safetensors_header(bytes_of(*buffer)) is None,
            Err(_) => false,
        },
{
    let bytes = as_slice(buffer);
    assert(bytes@.len() == bytes.len());
    if is_oversized(bytes) {
        return Err(WeightsError::Oversized);
    }
    match read_metadata(bytes) {
        Ok((n, header)) => {
            let entries = list_tensors(&header);
            let ghost listed = entries@;
            let ghost all = header_tensors(header);
            proof {
                assert forall|i: int| 0 <= i < entries@.len() implies entry_fits(
                    (#[trigger] entries@[i])@,
                    n as int,
                    bytes@.len() as int,
                ) by {
                    assert(all.contains_key(entries@[i].name@));
                }
            }
            let tensors = cut_tensors(buffer, n, entries);
            proof {
                assert forall|name: Seq<char>|
                    tensors@.dom().contains(name) == all.dom().contains(name) by {
                    if tensors@.contains_key(name) {
                        let i = choose|i: int|
                            0 <= i < listed.len() && (#[trigger] listed[i]).name@ == name;
                        assert(all.contains_key(listed[i].name@));
                    }
                    if all.contains_key(name) {
                        let i = choose|i: int|
                            0 <= i < listed.len() && (#[trigger] listed[i]).name@ == name;
                        assert(tensors@.contains_key(listed[i].name@));
                    }
                }
                assert(tensors@.dom() =~= all.dom());
                assert forall|name: Seq<char>| #[trigger] all.contains_key(name) implies is_tensor(
                    tensors@[name],
                    all[name],
                    bytes@,
                    n as int,
                ) by {
                    assert(tensors@.contains_key(name));
                    let i = choose|i: int|
                        0 <= i < listed.len() && (#[trigger] listed[i]).name@ == name && is_tensor(
                            tensors@[name],
                            listed[i]@,
                            bytes@,
                            n as int,
                        );
                    assert(all[listed[i].name@] == listed[i]@);
                }
            }
            Ok(tensors)
        },
        Err(refused) => Err(WeightsError::Safetensors { refused }),
    }
}

/// The key of the map from tensors to files in an index of shards.
pub const WEIGHT_MAP: &'static str = "weight_map";

/// The name of a checkpoint that is one file.
pub const SINGLE_FILE: &'static str = "model.safetensors";

/// The strings among values, in their order, each where it comes first.
pub open spec fn first_texts(values: Seq<Option<Seq<char>>>) -> Seq<Seq<char>>
    decreases values.len(),
{
    if values.len() == 0 {
        Seq::empty()
    } else {
        let before = first_texts(values.drop_last());
        match values.last() {
            Some(f) => if before.contains(f) {
                before
            } else {
                before.push(f)
            },
            None => before,
        }
    }
}

/// The files of an index are the strings among its values, each once.
pub proof fn law_files_are_the_strings(values: Seq<Option<Seq<char>>>)
    ensures
        first_texts(values).no_duplicates(),
        forall|f: Seq<char>| #[trigger]
            first_texts(values).contains(f) <==> values.contains(Some(f)),
    decreases values.len(),
{
    if values.len() > 0 {
        let rest = values.drop_last();
        let before = first_texts(rest);
        law_files_are_the_strings(rest);
        assert(values =~= rest.push(values.last()));
        assert forall|f: Seq<char>| #[trigger]
            first_texts(values).contains(f) <==> values.contains(Some(f)) by {
            assert(before.contains(f) <==> rest.contains(Some(f)));
            lemma_push_contains(rest, values.last(), Some(f));
            match values.last() {
                Some(g) => lemma_push_contains(before, g, f),
                None => {},
            }
        }
    }
}

/// The files that the values of an index name, each once, in their order.
pub fn shard_files(values: &[Option<String>]) -> (r: Vec<String>)
    ensures
        texts(r@) == first_texts(optional_texts(values@)),
{
    let ghost wanted = optional_texts(values@);
    let mut files: Vec<String> = Vec::new();
    let mut i: usize = 0;
    assert(wanted.take(0) =~= Seq::<Option<Seq<char>>>::empty());
    assert(texts(files@) =~= Seq::<Seq<char>>::empty());
    while i < values.len()
        invariant
            i <= values@.len(),
            wanted == optional_texts(values@),
            texts(files@) == first_texts(wanted.take(i as int)),
        decreases values@.len() - i,
    {
        let ghost files0 = files@;
        assert(wanted.take(i + 1).drop_last() =~= wanted.take(i as int));
        assert(wanted.take(i + 1).last() == wanted[i as int]);
        match &values[i] {
            Some(file) => {
                assert(wanted[i as int] == Some(file@));
                if !lists_text(files.as_slice(), file.as_str()) {
                    files.push(file.clone());
                    assert(texts(files@) =~= texts(files0).push(file@));
                }
            },
            None => {
                assert(wanted[i as int] is None);
            },
        }
        i += 1;
    }
    assert(wanted.take(i as int) =~= wanted);
    files
}

/// What a list holds once one more item is added.
proof fn lemma_push_contains<T>(list: Seq<T>, added: T, item: T)
    ensures
        list.push(added).contains(item) <==> list.contains(item) || item == added,
{
    let longer = list.push(added);
    if list.contains(item) {
        let k = choose|k: int| 0 <= k < list.len() && list[k] == item;
        assert(longer[k] == item);
    }
    if item == added {
        assert(longer[list.len() as int] == item);
    }
    if longer.contains(item) {
        let k = choose|k: int| 0 <= k < longer.len() && longer[k] == item;
        if k < list.len() {
            assert(list[k] == item);
        }
    }
}

/// Whether a list of strings holds a text.
fn lists_text(list: &[String], text: &str) -> (r: bool)
    ensures
        r == texts(list@).contains(text@),
{
    let mut i: usize = 0;
    while i < list.len()
        invariant
            i <= list@.len(),
            forall|k: int| 0 <= k < i ==> (#[trigger] texts(list@)[k]) != text@,
        decreases list@.len() - i,
    {
        if same_text(list[i].as_str(), text) {
            assert(texts(list@)[i as int] == text@);
            return true;
        }
        i += 1;
    }
    false
}

/// Which files hold the weights: those that the index of shards names, where
/// there is one; else the single file, where there is one.
pub fn weight_files(index: Option<&str>, single_exists: bool) -> (r: Result<
    Vec<String>,
    WeightsError,
>)
    ensures
        match index {
            Some(text) => match json_of(text@) {
                Some(root) => match texts_under(root, WEIGHT_MAP@) {
                    Some(values) => r matches Ok(files) && texts(files@) == first_texts(values),
                    None => r matches Err(WeightsError::InvalidIndex),
                },
                None => r matches Err(WeightsError::Json { .. }),
            },
            None => if single_exists {
                r matches Ok(files) && texts(files@) == seq![SINGLE_FILE@]
            } else {
                r matches Err(WeightsError::NoWeights)
            },
        },
{
    match index {
        Some(text) => match parse_json(text) {
            Ok(root) => match read_texts_under(root, WEIGHT_MAP) {
                Some(values) => Ok(shard_files(values.as_slice())),
                None => Err(WeightsError::InvalidIndex),
            },
            Err(cause) => Err(WeightsError::Json { cause }),
        },
        None => if single_exists {
            let mut files: Vec<String> = Vec::new();
            files.push(SINGLE_FILE.to_owned());
            assert(texts(files@) =~= seq![SINGLE_FILE@]);
            Ok(files)
        } else {
            Err(WeightsError::NoWeights)
        },
    }
}

/// The tensors of the first `n` files, later files over earlier.
pub open spec fn merged(
    files: Seq<Map<Seq<char>, RawTensor>>,
    n: int,
) -> Map<Seq<char>, RawTensor>
    decreases n,
{
    if n <= 0 {
        Map::empty()
    } else {
        merged(files, n - 1).union_prefer_right(files[n - 1])
    }
}

/// The contents of a list of maps.
pub open spec fn map_views(
    files: Seq<StringHashMap<RawTensor>>,
) -> Seq<Map<Seq<char>, RawTensor>> {
    Seq::new(files.len(), |i: int| files[i]@)
}

/// Merges the tensors of several files; of two tensors of one name the later
/// stays.
pub fn merge_files(files: Vec<StringHashMap<RawTensor>>) -> (r: StringHashMap<RawTensor>)
    ensures
        r@ == merged(map_views(files@), files@.len() as int),
{
    let ghost views = map_views(files@);
    let ghost n = files@.len() as int;
    let mut all: StringHashMap<RawTensor> = StringHashMap::new();
    for file in it: files
        invariant
            views == map_views(it.seq()),
            n == it.seq().len(),
            all@ == merged(views, it.index() as int),
    {
        all.union_prefer_right(file);
    }
    all
}

/// The tensor of a name among several files is that of the last file that has
/// one; a name that no file has stays without.
pub proof fn law_last_file_wins(
    files: Seq<Map<Seq<char>, RawTensor>>,
    n: int,
    name: Seq<char>,
    w: int,
)
    requires
        0 <= w < n <= files.len(),
        files[w].contains_key(name),
        forall|k: int| w < k < n ==> !(#[trigger] files[k]).contains_key(name),
    ensures
        merged(files, n).contains_key(name),
        merged(files, n)[name] == files[w][name],
    decreases n,
{
    if w < n - 1 {
        law_last_file_wins(files, n - 1, name, w);
        assert(!files[n - 1].contains_key(name));
    }
}

/// Merging makes up no names.
pub proof fn law_merged_names_come_from_files(
    files: Seq<Map<Seq<char>, RawTensor>>,
    n: int,
    name: Seq<char>,
)
    requires
        0 <= n <= files.len(),
        forall|k: int| 0 <= k < n ==> !(#[trigger] files[k]).contains_key(name),
    ensures
        !merged(files, n).contains_key(name),
    decreases n,
{
    if n > 0 {
        law_merged_names_come_from_files(files, n - 1, name);
        assert(!files[n - 1].contains_key(name));
    }
}

/// The files of an index stand in the order in which its values first name them:
/// the result says where.
pub proof fn law_files_in_order(values: Seq<Option<Seq<char>>>) -> (ks: Seq<int>)
    ensures
        ks.len() == first_texts(values).len(),
        forall|i: int|
            0 <= i < ks.len() ==> 0 <= #[trigger] ks[i] < values.len() && values[ks[i]] == Some(
                first_texts(values)[i],
            ),
        forall|i: int, j: int| 0 <= i < j < ks.len() ==> #[trigger] ks[i] < #[trigger] ks[j],
        forall|i: int, k: int|
            0 <= i < ks.len() && 0 <= k < ks[i] ==> #[trigger] values[k] != Some(
                #[trigger] first_texts(values)[i],
            ),
    decreases values.len(),
{
    if values.len() == 0 {
        Seq::empty()
    } else {
        let rest = values.drop_last();
        let before = law_files_in_order(rest);
        law_files_are_the_strings(rest);
        let ks = match values.last() {
            Some(f) => if first_texts(rest).contains(f) {
                before
            } else {
                before.push(values.len() - 1)
            },
            None => before,
        };
        let files = first_texts(values);
        assert forall|i: int, k: int|
            0 <= i < ks.len() && 0 <= k < ks[i] implies #[trigger] values[k] != Some(
            #[trigger] files[i],
        ) by {
            assert(values[k] == rest[k]);
            if i < before.len() {
                assert(files[i] == first_texts(rest)[i]);
            } else {
                if rest[k] == Some(files[i]) {
                    assert(rest.contains(Some(files[i])));
                    assert(first_texts(rest).contains(files[i]));
                }
            }
        }
        ks
    }
}

/// Each byte of a tensor is the byte of the file that stands as far behind the
/// header as the header's offsets say.
pub proof fn law_tensor_holds_its_bytes(
    tensors: Map<Seq<char>, RawTensor>,
    entries: Map<Seq<char>, TensorEntryView>,
    bytes: Seq<u8>,
    n: int,
    name: Seq<char>,
    i: int,
)
    requires
        are_tensors(tensors, entries, bytes, n),
        entries.contains_key(name),
        n >= 0,
        entry_fits(entries[name], n, bytes.len() as int),
        0 <= i < entries[name].end - entries[name].begin,
    ensures
        tensors.contains_key(name),
        tensors[name].dtype == entries[name].dtype,
        tensors[name].shape@ == entries[name].shape,
        bytes_of(tensors[name].data).len() == entries[name].end - entries[name].begin,
        bytes_of(tensors[name].data)[i] == bytes[8 + n + entries[name].begin + i],
{
    assert(is_tensor(tensors[name], entries[name], bytes, n));
    assert(tensors.dom().contains(name));
}

/// The tensors of a file are those that its header names, and no others.
pub proof fn law_tensors_are_those_of_header(
    tensors: Map<Seq<char>, RawTensor>,
    entries: Map<Seq<char>, TensorEntryView>,
    bytes: Seq<u8>,
    n: int,
    name: Seq<char>,
)
    requires
        are_tensors(tensors, entries, bytes, n),
    ensures
        tensors.contains_key(name) <==> entries.contains_key(name),
{
}

/// The length of a header stands in the first eight bytes, the low ones first.
pub proof fn law_header_len_is_eight_bytes(bytes: Seq<u8>)
    requires
        bytes.len() >= 8,
    ensures
        header_len(bytes) == bytes[0] + 0x100 * bytes[1] + 0x1_0000 * bytes[2] + 0x100_0000
            * bytes[3] + 0x1_0000_0000 * bytes[4] + 0x100_0000_0000 * bytes[5] + 0x1_0000_0000_0000
            * bytes[6] + 0x100_0000_0000_0000 * bytes[7],
{
}

/// A file is oversized where it holds a whole header and a tensor of it
/// ends, counted from the beginning of the file, beyond what a size can tell.
pub proof fn law_oversized_if_a_tensor_ends_beyond(
    bytes: Seq<u8>,
    n: int,
    tensors: Map<Seq<char>, TensorEntryView>,
    name: Seq<char>,
)
    requires
        bytes.len() >= 8,
        n == header_len(bytes),
        8 + n <= bytes.len(),
        header_json(bytes.subrange(8, 8 + n)) == Some(tensors),
        tensors.contains_key(name),
        8 + n + tensors[name].end > usize::MAX,
    ensures
        oversized(bytes),
{
    assert(bytes.subrange(8, header_len(bytes) + 8) == bytes.subrange(8, 8 + n));
    assert(tensors.contains_key(name) && ends_beyond(tensors[name], n));
    assert(header_json(bytes.subrange(8, n + 8)) matches Some(ts) && ts == tensors);
    assert(exists|name: Seq<char>| #[trigger]
        tensors.contains_key(name) && ends_beyond(tensors[name], n));
}

/// A file of which no tensor ends that far is not oversized.
pub proof fn law_not_oversized(bytes: Seq<u8>, n: int)
    requires
        n == header_len(bytes),
        bytes.len() >= 8 && 8 + n <= bytes.len() ==> (header_json(bytes.subrange(8, 8 + n)) matches Some(
            tensors,
        ) ==> forall|name: Seq<char>| #[trigger]
            tensors.contains_key(name) ==> 8 + n + tensors[name].end <= usize::MAX),
    ensures
        !oversized(bytes),
{
}

} // verus!
