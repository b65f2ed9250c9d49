//! What a BMS chart of a project holds: keysound files, notes and tempo
//! changes, with the keysound labels and file names they use.
use vstd::prelude::*;

use crate::error::Error;
use crate::paths::{extension, file_stem, path_extension, path_file_stem};
use crate::project::{autos, is_auto, keysound_index, Project, Slice, SliceKeysound, StemType, Stem};
use crate::time_point::TimePoint;
use crate::timing::BPMChange;

verus! {

/// The base-62 digit for `d` (`0-9`, then `A-Z`, then `a-z`).
pub open spec fn base62_digit(d: int) -> char {
    if d < 10 {
        (48 + d) as char
    } else if d < 36 {
        (65 + d - 10) as char
    } else {
        (97 + d - 36) as char
    }
}

/// `n` written in base 62 without leading zeros.
pub open spec fn base62_text(n: nat) -> Seq<char>
    decreases n,
{
    if n < 62 {
        seq![base62_digit(n as int)]
    } else {
        base62_text(n / 62).push(base62_digit((n % 62) as int))
    }
}

/// `n` written in decimal without leading zeros.
pub open spec fn decimal_text(n: nat) -> Seq<char>
    decreases n,
{
    if n < 10 {
        seq![(48 + n) as char]
    } else {
        decimal_text(n / 10).push((48 + n % 10) as char)
    }
}

/// `s` padded on the left with `c` to at least `width` characters.
pub open spec fn pad_left(s: Seq<char>, width: nat, c: char) -> Seq<char> {
    if s.len() >= width {
        s
    } else {
        Seq::new((width - s.len()) as nat, |i: int| c) + s
    }
}

/// The label of keysound number `n`: base 62, at least two digits.
pub open spec fn keysound_label_text(n: nat) -> Seq<char> {
    pad_left(base62_text(n), 2, '0')
}

/// The file name of the `index`-th keysound cut from `stem`:
/// `{stem}_{index:03}.{ext}`.
pub open spec fn wav_name_text(stem: Seq<char>, index: nat, ext: Seq<char>) -> Seq<char> {
    stem + seq!['_'] + pad_left(decimal_text(index), 3, '0') + seq!['.'] + ext
}

/// A character BMS accepts in an object id.
pub open spec fn is_ascii_alphanumeric(c: char) -> bool {
    ('0' <= c <= '9') || ('A' <= c <= 'Z') || ('a' <= c <= 'z')
}

/// Text that names a BMS object: exactly two ASCII letters or digits.
pub open spec fn obj_id_text_valid(s: Seq<char>) -> bool {
    s.len() == 2 && is_ascii_alphanumeric(s[0]) && is_ascii_alphanumeric(s[1])
}

/// `base62::encode`: `n` in base 62 with digits `0-9A-Za-z`, no leading zeros.
#[verifier::external_body]
fn base62_encode(n: u64) -> (r: String)
    ensures
        r@ == base62_text(n as nat),
{
    base62::encode(n)
}

/// The decimal digit `d` as text.
fn digit_text(d: usize) -> (r: &'static str)
    requires
        d < 10,
    ensures
        r@ == seq![(48 + d) as char],
{
    proof {
        reveal_strlit("0");
        reveal_strlit("1");
        reveal_strlit("2");
        reveal_strlit("3");
        reveal_strlit("4");
        reveal_strlit("5");
        reveal_strlit("6");
        reveal_strlit("7");
        reveal_strlit("8");
        reveal_strlit("9");
    }
    match d {
        0 => "0",
        1 => "1",
        2 => "2",
        3 => "3",
        4 => "4",
        5 => "5",
        6 => "6",
        7 => "7",
        8 => "8",
        _ => "9",
    }
}

/// Appends `n` in decimal to `out`.
fn append_decimal(out: &mut String, n: usize)
    ensures
        final(out)@ == old(out)@ + decimal_text(n as nat),
    decreases n,
{
    if n >= 10 {
        append_decimal(out, n / 10);
    }
    out.append(digit_text(n % 10));
    proof {
        if n < 10 {
            assert(decimal_text(n as nat) == seq![(48 + n) as char]);
        }
    }
}

/// `index` in decimal, padded on the left with `0` to at least three digits.
fn format_index(index: usize) -> (r: String)
    ensures
        r@ == pad_left(decimal_text(index as nat), 3, '0'),
{
    let mut r = if index < 10 {
        String::from_str("00")
    } else if index < 100 {
        String::from_str("0")
    } else {
        String::from_str("")
    };
    proof {
        reveal_strlit("00");
        reveal_strlit("0");
        reveal_strlit("");
    }
    append_decimal(&mut r, index);
    proof {
        let d = decimal_text(index as nat);
        if index >= 10 {
            assert(decimal_text((index / 10) as nat).len() >= 1);
            if index >= 100 {
                assert(decimal_text((index / 100) as nat).len() >= 1);
                assert(d.len() >= 3);
            } else {
                assert(d.len() == 2);
                assert(Seq::new(1, |i: int| '0') =~= seq!['0']);
            }
        } else {
            assert(d.len() == 1);
            assert(Seq::new(2, |i: int| '0') =~= seq!['0', '0']);
        }
    }
    r
}

/// The file name of the `index`-th keysound cut from `stem`:
/// `{stem}_{index:03}.{ext}`.
fn wav_name(stem: &str, index: usize, ext: &str) -> (r: String)
    ensures
        r@ == wav_name_text(stem@, index as nat, ext@),
{
    let number = format_index(index);
    let mut name = String::from_str(stem);
    name.append("_");
    name.append(number.as_str());
    name.append(".");
    name.append(ext);
    proof {
        reveal_strlit("_");
        reveal_strlit(".");
    }
    name
}

/// `ObjId::try_from(label, true)` of bms-rs accepts the label: it is
/// exactly two ASCII letters or digits.
#[verifier::external_body]
fn is_obj_id(label: &str) -> (r: bool)
    ensures
        r <==> obj_id_text_valid(label@),
{
    bms_rs::bms::command::ObjId::try_from(label, true).is_ok()
}

/// The label of keysound number `n`: base 62, padded to two digits with `0`.
pub fn keysound_label(n: u64) -> (r: String)
    ensures
        r@ == keysound_label_text(n as nat),
{
    let encoded = base62_encode(n);
    if encoded.as_str().unicode_len() == 1 {
        let mut padded = String::from_str("0");
        proof {
            reveal_strlit("0");
        }
        padded.append(encoded.as_str());
        proof {
            assert(Seq::new((2 - encoded@.len()) as nat, |i: int| '0') =~= seq!['0']);
        }
        padded
    } else {
        proof {
            lemma_base62_nonempty(n as nat);
        }
        encoded
    }
}

/// The label shown on the slice at `index` of `stem`: the keysound it plays,
/// counted from the stem's first keysound; `None` when it plays none.
pub fn slice_keysound_label(stem: &Stem, index: usize) -> (r: Option<String>)
    requires
        keysound_base(*stem) + stem.slices@.len() <= u64::MAX,
    ensures
        r is None <==> keysound_index(stem.slices@, index as int) is None,
        r matches Some(l) ==> l@ == keysound_label_text(
            (keysound_index(stem.slices@, index as int)->0 + keysound_base(*stem)) as nat,
        ),
{
    let base: u64 = match stem.starting_keysound {
        Some(k) => k,
        None => 1,
    };
    match stem.slices.keysound_index_of(index) {
        None => None,
        Some(k) => {
            proof {
                lemma_keysound_index_bound(stem.slices@, index as int);
            }
            Some(keysound_label(k as u64 + base))
        },
    }
}

/// A slice's keysound number is smaller than the number of slices.
proof fn lemma_keysound_index_bound(s: Seq<Slice>, index: int)
    requires
        keysound_index(s, index) is Some,
    ensures
        0 <= keysound_index(s, index)->0 < s.len(),
{
    lemma_autos_len(s.take(index));
    lemma_autos_len(s);
    match s[index].keysound_id {
        SliceKeysound::Reference(r) => crate::project::lemma_find_time(autos(s), r),
        SliceKeysound::Auto => {},
    }
}

/// There are no more slices with keysounds of their own than slices.
proof fn lemma_autos_len(s: Seq<Slice>)
    ensures
        autos(s).len() <= s.len(),
    decreases s.len(),
{
    if s.len() > 0 {
        lemma_autos_len(s.drop_last());
    }
}

proof fn lemma_base62_nonempty(n: nat)
    ensures
        base62_text(n).len() >= 1,
    decreases n,
{
    if n >= 62 {
        lemma_base62_nonempty(n / 62);
    }
}

/// A keysound file of the chart: its object id (two base-62 digits) and the
/// file it names.
pub struct WavFile {
    pub label: String,
    pub path: String,
}

/// A note of the chart: when it plays (measure, numerator, denominator),
/// which keysound, and whether it is a note or background music.
pub struct NoteObject {
    pub time: (u64, u64, u64),
    pub label: String,
    pub ty: StemType,
}

/// A tempo change of the chart after the first.
pub struct BpmChangeObject {
    pub time: (u64, u64, u64),
    pub bpm_bits: u64,
}

/// Everything a BMS chart of a project holds.
pub struct BmsPlan {
    pub base_bpm_bits: u64,
    pub bpm_changes: Vec<BpmChangeObject>,
    pub wav_files: Vec<WavFile>,
    pub notes: Vec<NoteObject>,
}

/// A keysound file as text: its label and path.
pub type WavView = (Seq<char>, Seq<char>);

/// A note as plain values: time, keysound label, lane.
pub type NoteView = ((int, int, int), Seq<char>, StemType);

/// A tempo change as plain values.
pub type BpmView = ((int, int, int), u64);

/// A chart as plain values.
pub struct PlanView {
    pub base_bpm_bits: u64,
    pub bpm_changes: Seq<BpmView>,
    pub wav_files: Seq<WavView>,
    pub notes: Seq<NoteView>,
}

pub open spec fn wav_view(w: WavFile) -> WavView {
    (w.label@, w.path@)
}

pub open spec fn note_view(n: NoteObject) -> NoteView {
    ((n.time.0 as int, n.time.1 as int, n.time.2 as int), n.label@, n.ty)
}

pub open spec fn bpm_view(b: BpmChangeObject) -> BpmView {
    ((b.time.0 as int, b.time.1 as int, b.time.2 as int), b.bpm_bits)
}

impl View for BmsPlan {
    type V = PlanView;

    open spec fn view(&self) -> PlanView {
        PlanView {
            base_bpm_bits: self.base_bpm_bits,
            bpm_changes: self.bpm_changes@.map_values(|b: BpmChangeObject| bpm_view(b)),
            wav_files: self.wav_files@.map_values(|w: WavFile| wav_view(w)),
            notes: self.notes@.map_values(|n: NoteObject| note_view(n)),
        }
    }
}

/// The object time of a time point: whole measure, numerator and denominator
/// of the rest; time points before the start have none.
pub open spec fn objtime_spec(t: TimePoint) -> Result<(int, int, int), Error> {
    if t@.0 < 0 {
        Err(Error::NegativeTimePoint)
    } else {
        Ok((t@.0 / t@.1, t@.0 % t@.1, t@.1))
    }
}

/// The object time of `t` can be computed without overflow.
pub open spec fn objtime_fits(t: TimePoint) -> bool {
    t@.0 >= 0 || crate::ratio::in_i64(t@.0 - t@.1)
}

/// The tempo changes after the first, with their object times.
pub open spec fn bpm_objects(cs: Seq<BPMChange>) -> Result<Seq<BpmView>, Error>
    decreases cs.len(),
{
    if cs.len() == 0 {
        Ok(Seq::empty())
    } else {
        match bpm_objects(cs.drop_last()) {
            Err(e) => Err(e),
            Ok(bs) => match objtime_spec(cs.last().time_point) {
                Err(e) => Err(e),
                Ok(t) => Ok(bs.push((t, cs.last().bpm_bits))),
            },
        }
    }
}

/// The keysound files and notes of the first `upto` slices of a stem whose
/// keysounds are numbered from `base` and whose files are named after `name`
/// and `ext`: every slice with a keysound of its own adds the next file, and
/// every slice adds a note playing its keysound.
pub open spec fn slice_steps(
    slices: Seq<Slice>,
    name: Seq<char>,
    ext: Seq<char>,
    base: nat,
    ty: StemType,
    upto: int,
) -> Result<(Seq<WavView>, Seq<NoteView>), Error>
    decreases upto,
{
    if upto <= 0 {
        Ok((Seq::empty(), Seq::empty()))
    } else {
        match slice_steps(slices, name, ext, base, ty, upto - 1) {
            Err(e) => Err(e),
            Ok(acc) => {
                let i = upto - 1;
                let x = slices[i];
                let w = acc.0;
                let label = keysound_label_text(base + w.len());
                if is_auto(x) && !obj_id_text_valid(label) {
                    Err(Error::InvalidObjId)
                } else {
                    let w2 = if is_auto(x) {
                        w.push((label, wav_name_text(name, w.len(), ext)))
                    } else {
                        w
                    };
                    match keysound_index(slices, i) {
                        Some(k) => if 0 <= k < w2.len() {
                            match objtime_spec(x.time_point) {
                                Ok(t) => Ok((w2, acc.1.push((t, w2[k].0, ty)))),
                                Err(e) => Err(e),
                            }
                        } else {
                            Err(Error::MissingKeysound(i as usize))
                        },
                        None => Err(Error::MissingKeysound(i as usize)),
                    }
                }
            },
        }
    }
}

/// The name and extension of a stem's keysound files: its group and `wav`,
/// or the file stem and extension of its audio path.
pub open spec fn stem_names(st: Stem) -> Result<(Seq<char>, Seq<char>), Error> {
    match st.group {
        Some(g) => Ok((g@, "wav"@)),
        None => match path_file_stem(st.audio_path@) {
            None => Err(Error::NoFileName),
            Some(s) => match path_extension(st.audio_path@) {
                None => Err(Error::NoExtension),
                Some(e) => Ok((s, e)),
            },
        },
    }
}

/// The first keysound number of a stem.
pub open spec fn keysound_base(st: Stem) -> nat {
    match st.starting_keysound {
        Some(k) => k as nat,
        None => 1,
    }
}

/// Stem `i` is the first of its group, or has none.
pub open spec fn first_of_group(stems: Seq<Stem>, i: int) -> bool {
    match stems[i].group {
        None => true,
        Some(g) => forall|j: int|
            0 <= j < i ==> !(#[trigger] stems[j].group matches Some(h) && h@ == g@),
    }
}

/// The keysound files and notes of the first `upto` stems; of a group only its
/// first stem counts.
pub open spec fn stems_plan(stems: Seq<Stem>, upto: int) -> Result<(Seq<WavView>, Seq<NoteView>), Error>
    decreases upto,
{
    if upto <= 0 {
        Ok((Seq::empty(), Seq::empty()))
    } else {
        match stems_plan(stems, upto - 1) {
            Err(e) => Err(e),
            Ok(acc) => {
                let st = stems[upto - 1];
                if !first_of_group(stems, upto - 1) {
                    Ok(acc)
                } else {
                    match stem_names(st) {
                        Err(e) => Err(e),
                        Ok(names) => match slice_steps(
                            st.slices@,
                            names.0,
                            names.1,
                            keysound_base(st),
                            st.ty,
                            st.slices@.len() as int,
                        ) {
                            Err(e) => Err(e),
                            Ok(parts) => Ok((acc.0 + parts.0, acc.1 + parts.1)),
                        },
                    }
                }
            },
        }
    }
}

/// The chart of a project.
pub open spec fn plan_spec(project: Project) -> Result<PlanView, Error> {
    let changes = project.timing@;
    if changes.len() == 0 {
        Err(Error::EmptyTiming)
    } else {
        match bpm_objects(changes.skip(1)) {
            Err(e) => Err(e),
            Ok(bpms) => match stems_plan(project.stems@, project.stems@.len() as int) {
                Err(e) => Err(e),
                Ok(parts) => Ok(
                    PlanView {
                        base_bpm_bits: changes[0].bpm_bits,
                        bpm_changes: bpms,
                        wav_files: parts.0,
                        notes: parts.1,
                    },
                ),
            },
        }
    }
}

/// The chart of a project can be computed without overflow.
pub open spec fn plan_fits(project: Project) -> bool {
    &&& forall|i: int|
        0 <= i < project.timing@.len() ==> objtime_fits((#[trigger] project.timing@[i]).time_point)
    &&& forall|i: int|
        0 <= i < project.stems@.len() ==> slices_fit(#[trigger] project.stems@[i].slices@)
}

/// The object times of all the slices can be computed without overflow.
pub open spec fn slices_fit(slices: Seq<Slice>) -> bool {
    forall|j: int| 0 <= j < slices.len() ==> objtime_fits((#[trigger] slices[j]).time_point)
}

/// Numbers from 3844 (`62 * 62`) on take three or more base-62 digits.
proof fn lemma_label_valid_bound(n: nat)
    requires
        obj_id_text_valid(keysound_label_text(n)),
    ensures
        n < 3844,
{
    if n >= 3844 {
        lemma_base62_nonempty(n / 62 / 62);
        assert(base62_text(n / 62).len() == base62_text(n / 62 / 62).len() + 1);
        assert(base62_text(n).len() == base62_text(n / 62).len() + 1);
    }
}

proof fn lemma_map_concat<A, B>(a: Seq<A>, b: Seq<A>, f: spec_fn(A) -> B)
    ensures
        (a + b).map_values(f) == a.map_values(f) + b.map_values(f),
{
    assert((a + b).map_values(f) =~= a.map_values(f) + b.map_values(f));
}

proof fn lemma_map_push<A, B>(a: Seq<A>, x: A, f: spec_fn(A) -> B)
    ensures
        a.push(x).map_values(f) == a.map_values(f).push(f(x)),
{
    assert(a.push(x).map_values(f) =~= a.map_values(f).push(f(x)));
}

/// Once the tempo changes of a prefix fail, so do all of them.
proof fn lemma_bpm_error_stays(cs: Seq<BPMChange>, k: int)
    requires
        0 <= k <= cs.len(),
        bpm_objects(cs.take(k)) is Err,
    ensures
        bpm_objects(cs) == bpm_objects(cs.take(k)),
    decreases cs.len() - k,
{
    if k < cs.len() {
        assert(cs.take(k + 1).drop_last() =~= cs.take(k));
        lemma_bpm_error_stays(cs, k + 1);
    } else {
        assert(cs.take(k) =~= cs);
    }
}

/// Once the slices up to `k` fail, so do all further prefixes.
proof fn lemma_steps_error_stays(
    slices: Seq<Slice>,
    name: Seq<char>,
    ext: Seq<char>,
    base: nat,
    ty: StemType,
    k: int,
    n: int,
)
    requires
        0 <= k <= n,
        slice_steps(slices, name, ext, base, ty, k) is Err,
    ensures
        slice_steps(slices, name, ext, base, ty, n) == slice_steps(slices, name, ext, base, ty, k),
    decreases n - k,
{
    if k < n {
        lemma_steps_error_stays(slices, name, ext, base, ty, k, n - 1);
    }
}

/// Once the stems up to `k` fail, so do all further prefixes.
proof fn lemma_stems_error_stays(stems: Seq<Stem>, k: int, n: int)
    requires
        0 <= k <= n,
        stems_plan(stems, k) is Err,
    ensures
        stems_plan(stems, n) == stems_plan(stems, k),
    decreases n - k,
{
    if k < n {
        lemma_stems_error_stays(stems, k, n - 1);
    }
}

/// The tempo changes after the first, with their object times.
fn bpm_change_objects(changes: &[BPMChange]) -> (r: Result<Vec<BpmChangeObject>, Error>)
    requires
        changes@.len() > 0,
        forall|i: int| 0 <= i < changes@.len() ==> objtime_fits((#[trigger] changes@[i]).time_point),
    ensures
        r matches Ok(v) ==> bpm_objects(changes@.skip(1)) == Ok::<Seq<BpmView>, Error>(
            v@.map_values(|b: BpmChangeObject| bpm_view(b)),
        ),
        r matches Err(e) ==> bpm_objects(changes@.skip(1)) == Err::<Seq<BpmView>, Error>(e),
{
    let ghost rest = changes@.skip(1);
    let mut out: Vec<BpmChangeObject> = Vec::new();
    let mut i: usize = 1;
    proof {
        assert(rest.take(0) =~= Seq::<BPMChange>::empty());
        assert(out@.map_values(|b: BpmChangeObject| bpm_view(b)) =~= Seq::<BpmView>::empty());
    }
    while i < changes.len()
        invariant
            1 <= i <= changes@.len(),
            rest == changes@.skip(1),
            forall|j: int| 0 <= j < changes@.len() ==> objtime_fits((#[trigger] changes@[j]).time_point),
            bpm_objects(rest.take(i - 1)) == Ok::<Seq<BpmView>, Error>(
                out@.map_values(|b: BpmChangeObject| bpm_view(b)),
            ),
        decreases changes@.len() - i,
    {
        let c = changes[i];
        proof {
            assert(rest.take(i as int).drop_last() =~= rest.take(i - 1));
            assert(rest.take(i as int).last() == c);
        }
        match c.time_point.objtime_parts() {
            Err(e) => {
                proof {
                    lemma_bpm_error_stays(rest, i as int);
                }
                return Err(e);
            },
            Ok(t) => {
                let ghost before = out@;
                out.push(BpmChangeObject { time: t, bpm_bits: c.bpm_bits });
                proof {
                    lemma_map_push(before, BpmChangeObject { time: t, bpm_bits: c.bpm_bits }, |b: BpmChangeObject| bpm_view(b));
                }
            },
        }
        i = i + 1;
    }
    proof {
        assert(rest.take(i - 1) =~= rest);
    }
    Ok(out)
}

/// Stem `i` is the first of its group, or has none.
fn is_first_of_group(stems: &Vec<Stem>, i: usize) -> (r: bool)
    requires
        i < stems@.len(),
    ensures
        r == first_of_group(stems@, i as int),
{
    match &stems[i].group {
        None => true,
        Some(g) => {
            for j in 0..i
                invariant
                    i < stems@.len(),
                    stems@[i as int].group == Some(*g),
                    forall|k: int|
                        0 <= k < j ==> !(#[trigger] stems@[k].group matches Some(h) && h@ == g@),
            {
                match &stems[j].group {
                    Some(h) => {
                        if *h == *g {
                            return false;
                        }
                    },
                    None => {},
                }
            }
            true
        },
    }
}

/// The keysound files and notes of one stem, whose files are named after
/// `name` and `ext`.
fn stem_parts(stem: &Stem, name: &str, ext: &str) -> (r: Result<(Vec<WavFile>, Vec<NoteObject>), Error>)
    requires
        slices_fit(stem.slices@),
    ensures
        r matches Ok(p) ==> slice_steps(
            stem.slices@,
            name@,
            ext@,
            keysound_base(*stem),
            stem.ty,
            stem.slices@.len() as int,
        ) == Ok::<(Seq<WavView>, Seq<NoteView>), Error>(
            (p.0@.map_values(|w: WavFile| wav_view(w)), p.1@.map_values(|n: NoteObject| note_view(n))),
        ),
        r matches Err(e) ==> slice_steps(
            stem.slices@,
            name@,
            ext@,
            keysound_base(*stem),
            stem.ty,
            stem.slices@.len() as int,
        ) == Err::<(Seq<WavView>, Seq<NoteView>), Error>(e),
{
    let base: u64 = match stem.starting_keysound {
        Some(k) => k,
        None => 1,
    };
    let ghost s = stem.slices@;
    let ghost len = s.len() as int;
    let mut wavs: Vec<WavFile> = Vec::new();
    let mut notes: Vec<NoteObject> = Vec::new();
    let n = stem.slices.0.len();
    proof {
        assert(wavs@.map_values(|w: WavFile| wav_view(w)) =~= Seq::<WavView>::empty());
        assert(notes@.map_values(|x: NoteObject| note_view(x)) =~= Seq::<NoteView>::empty());
    }
    for i in 0..n
        invariant
            n == s.len(),
            len == s.len(),
            s == stem.slices@,
            base as nat == keysound_base(*stem),
            slices_fit(s),
            wavs@.len() <= i,
            wavs@.len() > 0 ==> base + wavs@.len() <= 3844,
            slice_steps(s, name@, ext@, base as nat, stem.ty, i as int) == Ok::<(Seq<WavView>, Seq<NoteView>), Error>(
                (wavs@.map_values(|w: WavFile| wav_view(w)), notes@.map_values(|x: NoteObject| note_view(x))),
            ),
    {
        let ghost w_before = wavs@;
        let ghost n_before = notes@;
        let x = stem.slices.0[i];
        match x.keysound_id {
            SliceKeysound::Auto => {
                let count = wavs.len();
                let label = keysound_label(base + count as u64);
                if !is_obj_id(label.as_str()) {
                    proof {
                        lemma_steps_error_stays(s, name@, ext@, base as nat, stem.ty, i + 1, len);
                    }
                    return Err(Error::InvalidObjId);
                }
                proof {
                    lemma_label_valid_bound((base + count) as nat);
                }
                let path = wav_name(name, count, ext);
                let ghost wf = WavFile { label, path };
                wavs.push(WavFile { label, path });
                proof {
                    lemma_map_push(w_before, wf, |w: WavFile| wav_view(w));
                }
            },
            SliceKeysound::Reference(_) => {},
        }
        match stem.slices.keysound_index_of(i) {
            Some(k) => {
                if k < wavs.len() {
                    match x.time_point.objtime_parts() {
                        Ok(t) => {
                            let label = wavs[k].label.clone();
                            let ghost nt = NoteObject { time: t, label, ty: stem.ty };
                            notes.push(NoteObject { time: t, label, ty: stem.ty });
                            proof {
                                lemma_map_push(n_before, nt, |x: NoteObject| note_view(x));
                            }
                        },
                        Err(e) => {
                            proof {
                                lemma_steps_error_stays(s, name@, ext@, base as nat, stem.ty, i + 1, len);
                            }
                            return Err(e);
                        },
                    }
                } else {
                    proof {
                        lemma_steps_error_stays(s, name@, ext@, base as nat, stem.ty, i + 1, len);
                    }
                    return Err(Error::MissingKeysound(i));
                }
            },
            None => {
                proof {
                    lemma_steps_error_stays(s, name@, ext@, base as nat, stem.ty, i + 1, len);
                }
                return Err(Error::MissingKeysound(i));
            },
        }
    }
    Ok((wavs, notes))
}

/// Everything a BMS chart of `project` holds: the first tempo, the later
/// tempo changes, one keysound file per slice with a keysound of its own and
/// one note per slice. Of the stems of a group only the first is charted, as
/// its slices stand for the whole group.
pub fn bms_plan(project: &Project) -> (r: Result<BmsPlan, Error>)
    requires
        plan_fits(*project),
    ensures
        r matches Ok(p) ==> plan_spec(*project) == Ok::<PlanView, Error>(p@),
        r matches Err(e) ==> plan_spec(*project) == Err::<PlanView, Error>(e),
{
    let changes = project.timing.bpm_changes();
    if changes.len() == 0 {
        return Err(Error::EmptyTiming);
    }
    let base_bpm_bits = changes[0].bpm_bits;
    let bpm_changes = match bpm_change_objects(changes) {
        Ok(v) => v,
        Err(e) => {
            return Err(e);
        },
    };
    let ghost stems = project.stems@;
    let ghost total = stems.len() as int;
    let ghost bpms = bpm_changes@.map_values(|b: BpmChangeObject| bpm_view(b));
    assert(project.timing@ == changes@);
    assert(bpm_objects(project.timing@.skip(1)) == Ok::<Seq<BpmView>, Error>(bpms));
    let mut wav_files: Vec<WavFile> = Vec::new();
    let mut notes: Vec<NoteObject> = Vec::new();
    let count = project.stems.len();
    proof {
        assert(wav_files@.map_values(|w: WavFile| wav_view(w)) =~= Seq::<WavView>::empty());
        assert(notes@.map_values(|x: NoteObject| note_view(x)) =~= Seq::<NoteView>::empty());
    }
    for i in 0..count
        invariant
            count == stems.len(),
            total == stems.len(),
            stems == project.stems@,
            plan_fits(*project),
            project.timing@.len() > 0,
            bpm_objects(project.timing@.skip(1)) == Ok::<Seq<BpmView>, Error>(bpms),
            stems_plan(stems, i as int) == Ok::<(Seq<WavView>, Seq<NoteView>), Error>(
                (wav_files@.map_values(|w: WavFile| wav_view(w)), notes@.map_values(|x: NoteObject| note_view(x))),
            ),
    {
        let stem = &project.stems[i];
        if is_first_of_group(&project.stems, i) {
            let names: (String, String) = match &stem.group {
                Some(g) => (g.clone(), String::from_str("wav")),
                None => match file_stem(stem.audio_path.as_str()) {
                    None => {
                        proof {
                            lemma_stems_error_stays(stems, i + 1, total);
                        }
                        return Err(Error::NoFileName);
                    },
                    Some(file) => match extension(stem.audio_path.as_str()) {
                        None => {
                            proof {
                                lemma_stems_error_stays(stems, i + 1, total);
                            }
                            return Err(Error::NoExtension);
                        },
                        Some(ext) => (String::from_str(file), String::from_str(ext)),
                    },
                },
            };
            assert(slices_fit(stems[i as int].slices@));
            match stem_parts(stem, names.0.as_str(), names.1.as_str()) {
                Err(e) => {
                    proof {
                        lemma_stems_error_stays(stems, i + 1, total);
                    }
                    return Err(e);
                },
                Ok(parts) => {
                    let (mut w, mut n) = parts;
                    let ghost wb = wav_files@;
                    let ghost nb = notes@;
                    let ghost wp = w@;
                    let ghost np = n@;
                    wav_files.append(&mut w);
                    notes.append(&mut n);
                    proof {
                        lemma_map_concat(wb, wp, |w: WavFile| wav_view(w));
                        lemma_map_concat(nb, np, |x: NoteObject| note_view(x));
                    }
                },
            }
        }
    }
    Ok(BmsPlan { base_bpm_bits, bpm_changes, wav_files, notes })
}

/// One of the keysound files has the label.
pub open spec fn has_file(wavs: Seq<WavView>, label: Seq<char>) -> bool {
    exists|j: int| 0 <= j < wavs.len() && (#[trigger] wavs[j]).0 == label
}

/// Every note plays one of the keysound files.
pub open spec fn notes_have_files(wavs: Seq<WavView>, notes: Seq<NoteView>) -> bool {
    forall|i: int| 0 <= i < notes.len() ==> has_file(wavs, (#[trigger] notes[i]).1)
}

proof fn lemma_steps_notes_have_files(
    slices: Seq<Slice>,
    name: Seq<char>,
    ext: Seq<char>,
    base: nat,
    ty: StemType,
    upto: int,
)
    requires
        slice_steps(slices, name, ext, base, ty, upto) is Ok,
    ensures
        notes_have_files(
            slice_steps(slices, name, ext, base, ty, upto)->Ok_0.0,
            slice_steps(slices, name, ext, base, ty, upto)->Ok_0.1,
        ),
    decreases upto,
{
    if upto > 0 {
        lemma_steps_notes_have_files(slices, name, ext, base, ty, upto - 1);
        let acc = slice_steps(slices, name, ext, base, ty, upto - 1)->Ok_0;
        let res = slice_steps(slices, name, ext, base, ty, upto)->Ok_0;
        let w = acc.0;
        let w2 = res.0;
        assert(w2.len() >= w.len());
        assert forall|j: int| 0 <= j < w.len() implies w2[j] == w[j] by {}
        assert forall|i: int| 0 <= i < res.1.len() implies has_file(w2, (#[trigger] res.1[i]).1) by {
            if i < acc.1.len() {
                assert(res.1[i] == acc.1[i]);
                assert(has_file(w, acc.1[i].1));
                let j = choose|j: int| 0 <= j < w.len() && (#[trigger] w[j]).0 == acc.1[i].1;
                assert(w2[j] == w[j]);
            } else {
                let k = keysound_index(slices, upto - 1)->0;
                assert(w2[k].0 == res.1[i].1);
                assert(has_file(w2, res.1[i].1));
            }
        }
    }
}

proof fn lemma_stems_notes_have_files(stems: Seq<Stem>, upto: int)
    requires
        stems_plan(stems, upto) is Ok,
    ensures
        notes_have_files(stems_plan(stems, upto)->Ok_0.0, stems_plan(stems, upto)->Ok_0.1),
    decreases upto,
{
    if upto > 0 {
        lemma_stems_notes_have_files(stems, upto - 1);
        let acc = stems_plan(stems, upto - 1)->Ok_0;
        let res = stems_plan(stems, upto)->Ok_0;
        let st = stems[upto - 1];
        if first_of_group(stems, upto - 1) {
            let names = stem_names(st)->Ok_0;
            let len = st.slices@.len() as int;
            lemma_steps_notes_have_files(st.slices@, names.0, names.1, keysound_base(st), st.ty, len);
            let parts = slice_steps(st.slices@, names.0, names.1, keysound_base(st), st.ty, len)->Ok_0;
            assert forall|i: int| 0 <= i < res.1.len() implies has_file(res.0, (#[trigger] res.1[i]).1) by {
                if i < acc.1.len() {
                    assert(res.1[i] == acc.1[i]);
                    assert(has_file(acc.0, acc.1[i].1));
                    let j = choose|j: int| 0 <= j < acc.0.len() && (#[trigger] acc.0[j]).0 == acc.1[i].1;
                    assert(res.0[j] == acc.0[j]);
                } else {
                    let i2 = i - acc.1.len();
                    assert(res.1[i] == parts.1[i2]);
                    assert(has_file(parts.0, parts.1[i2].1));
                    let j = choose|j: int| 0 <= j < parts.0.len() && (#[trigger] parts.0[j]).0 == parts.1[i2].1;
                    assert(res.0[acc.0.len() + j] == parts.0[j]);
                }
            }
            assert(notes_have_files(res.0, res.1));
        } else {
            assert(res == acc);
        }
    }
}

/// Every note of a project's chart plays one of the chart's keysound files.
pub proof fn lemma_notes_have_files(project: Project)
    requires
        plan_spec(project) is Ok,
    ensures
        notes_have_files(plan_spec(project)->Ok_0.wav_files, plan_spec(project)->Ok_0.notes),
{
    lemma_stems_notes_have_files(project.stems@, project.stems@.len() as int);
}

/// A keysound number has a two-character object id exactly when it is below
/// 3844 (`62 * 62`): two base-62 digits.
pub proof fn lemma_label_valid_iff(n: nat)
    ensures
        obj_id_text_valid(keysound_label_text(n)) <==> n < 3844,
{
    if n < 3844 {
        if n < 62 {
            assert(base62_text(n) == seq![base62_digit(n as int)]);
            assert(keysound_label_text(n) =~= seq!['0', base62_digit(n as int)]);
        } else {
            assert(n / 62 < 62);
            assert(base62_text(n / 62) == seq![base62_digit((n / 62) as int)]);
            assert(base62_text(n) =~= seq![base62_digit((n / 62) as int), base62_digit((n % 62) as int)]);
        }
    } else {
        lemma_base62_nonempty(n / 62 / 62);
        assert(base62_text(n / 62).len() == base62_text(n / 62 / 62).len() + 1);
        assert(base62_text(n).len() == base62_text(n / 62).len() + 1);
    }
}

/// The `j`-th of the files `w` is labelled with keysound number `base + j`,
/// a number with a valid object id.
pub open spec fn labelled_from(w: Seq<WavView>, base: nat) -> bool {
    forall|j: int|
        0 <= j < w.len() ==> (#[trigger] w[j]).0 == keysound_label_text(base + j as nat) && base + j < 3844
}

/// The keysound files of a stem are labelled with consecutive keysound
/// numbers from its first one.
proof fn lemma_steps_labels(
    slices: Seq<Slice>,
    name: Seq<char>,
    ext: Seq<char>,
    base: nat,
    ty: StemType,
    upto: int,
)
    requires
        slice_steps(slices, name, ext, base, ty, upto) is Ok,
    ensures
        labelled_from(slice_steps(slices, name, ext, base, ty, upto)->Ok_0.0, base),
    decreases upto,
{
    if upto > 0 {
        lemma_steps_labels(slices, name, ext, base, ty, upto - 1);
        let w = slice_steps(slices, name, ext, base, ty, upto - 1)->Ok_0.0;
        let w2 = slice_steps(slices, name, ext, base, ty, upto)->Ok_0.0;
        if is_auto(slices[upto - 1]) {
            lemma_label_valid_iff(base + w.len());
        }
        assert forall|j: int| 0 <= j < w2.len() implies (#[trigger] w2[j]).0 == keysound_label_text(
            base + j as nat,
        ) && base + j < 3844 by {
            if j < w.len() {
                assert(w2[j] == w[j]);
            }
        }
        assert(labelled_from(w2, base));
    } else {
        assert(slice_steps(slices, name, ext, base, ty, upto)->Ok_0.0.len() == 0);
    }
}

/// Different keysound numbers below 3844 get different labels.
proof fn lemma_label_injective(n: nat, m: nat)
    requires
        n < 3844,
        m < 3844,
        keysound_label_text(n) == keysound_label_text(m),
    ensures
        n == m,
{
    lemma_label_digits(n);
    lemma_label_digits(m);
    let ln = keysound_label_text(n);
    assert(ln[0] == base62_digit((n / 62) as int) && ln[1] == base62_digit((n % 62) as int));
    assert(base62_digit((n / 62) as int) == base62_digit((m / 62) as int));
    assert(base62_digit((n % 62) as int) == base62_digit((m % 62) as int));
    lemma_digit_injective((n / 62) as int, (m / 62) as int);
    lemma_digit_injective((n % 62) as int, (m % 62) as int);
    vstd::arithmetic::div_mod::lemma_fundamental_div_mod(n as int, 62);
    vstd::arithmetic::div_mod::lemma_fundamental_div_mod(m as int, 62);
}

/// The label of a number below 3844 is its two base-62 digits.
proof fn lemma_label_digits(n: nat)
    requires
        n < 3844,
    ensures
        keysound_label_text(n) == seq![base62_digit((n / 62) as int), base62_digit((n % 62) as int)],
{
    if n < 62 {
        assert(base62_text(n) == seq![base62_digit(n as int)]);
        assert(n / 62 == 0 && n % 62 == n);
        assert(base62_digit(0) == '0');
        assert(keysound_label_text(n) =~= seq!['0', base62_digit(n as int)]);
    } else {
        assert(n / 62 < 62);
        assert(base62_text(n / 62) == seq![base62_digit((n / 62) as int)]);
        assert(base62_text(n) =~= seq![base62_digit((n / 62) as int), base62_digit((n % 62) as int)]);
    }
}

/// Different base-62 digits are different characters.
proof fn lemma_digit_injective(a: int, b: int)
    requires
        0 <= a < 62,
        0 <= b < 62,
        base62_digit(a) == base62_digit(b),
    ensures
        a == b,
{
    assert((base62_digit(a) as int) == (base62_digit(b) as int));
}

/// What the first `upto` slices of a stem give, slice by slice.
proof fn lemma_steps_exact(
    slices: Seq<Slice>,
    name: Seq<char>,
    ext: Seq<char>,
    base: nat,
    ty: StemType,
    upto: int,
)
    requires
        0 <= upto <= slices.len(),
        slice_steps(slices, name, ext, base, ty, upto) is Ok,
    ensures
        ({
            let res = slice_steps(slices, name, ext, base, ty, upto)->Ok_0;
            &&& res.1.len() == upto
            &&& forall|j: int|
                0 <= j < res.0.len() ==> #[trigger] res.0[j] == (
                    keysound_label_text(base + j as nat),
                    wav_name_text(name, j as nat, ext),
                )
            &&& forall|i: int| 0 <= i < upto ==> #[trigger] keysound_index(slices, i) is Some
            &&& forall|i: int|
                0 <= i < upto ==> #[trigger] res.1[i] == (
                    objtime_spec(slices[i].time_point)->Ok_0,
                    keysound_label_text(base + keysound_index(slices, i)->0 as nat),
                    ty,
                )
        }),
    decreases upto,
{
    if upto > 0 {
        lemma_steps_exact(slices, name, ext, base, ty, upto - 1);
        lemma_steps_labels(slices, name, ext, base, ty, upto);
        let acc = slice_steps(slices, name, ext, base, ty, upto - 1)->Ok_0;
        let res = slice_steps(slices, name, ext, base, ty, upto)->Ok_0;
        let w = acc.0;
        let w2 = res.0;
        assert forall|j: int| 0 <= j < w2.len() implies #[trigger] w2[j] == (
            keysound_label_text(base + j as nat),
            wav_name_text(name, j as nat, ext),
        ) by {
            if j < w.len() {
                assert(w2[j] == w[j]);
            }
        }
        assert forall|i: int| 0 <= i < upto implies #[trigger] keysound_index(slices, i) is Some by {
            if i < upto - 1 {
                assert(res.1[i] == acc.1[i]);
            }
        }
        assert forall|i: int| 0 <= i < upto implies #[trigger] res.1[i]
            == (
            objtime_spec(slices[i].time_point)->Ok_0,
            keysound_label_text(base + keysound_index(slices, i)->0 as nat),
            ty,
        ) by {
            if i < upto - 1 {
                assert(res.1[i] == acc.1[i]);
                assert(keysound_index(slices, i) is Some);
            } else {
                assert(keysound_index(slices, upto - 1) is Some);
                let k = keysound_index(slices, upto - 1)->0;
                assert(w2[k].0 == keysound_label_text(base + k as nat));
            }
        }
    }
}

/// A charted stem gives one note per slice, in order: the note of the slice
/// at `i` lies at that slice's time and carries the label of the keysound the
/// slice plays, keysound number `base + keysound_index(slices, i)`. The
/// stem's `j`-th keysound file is labelled with number `base + j` and named
/// `{name}_{j:03}.{ext}`, one file per slice with a keysound of its own.
pub proof fn lemma_notes_play_their_keysound(
    slices: Seq<Slice>,
    name: Seq<char>,
    ext: Seq<char>,
    base: nat,
    ty: StemType,
)
    requires
        slice_steps(slices, name, ext, base, ty, slices.len() as int) is Ok,
    ensures
        ({
            let res = slice_steps(slices, name, ext, base, ty, slices.len() as int)->Ok_0;
            &&& res.0.len() == autos(slices).len()
            &&& res.1.len() == slices.len()
            &&& forall|j: int|
                0 <= j < res.0.len() ==> #[trigger] res.0[j] == (
                    keysound_label_text(base + j as nat),
                    wav_name_text(name, j as nat, ext),
                )
            &&& forall|i: int| 0 <= i < slices.len() ==> #[trigger] keysound_index(slices, i) is Some
            &&& forall|i: int|
                0 <= i < slices.len() ==> #[trigger] res.1[i] == (
                    objtime_spec(slices[i].time_point)->Ok_0,
                    keysound_label_text(base + keysound_index(slices, i)->0 as nat),
                    ty,
                )
        }),
{
    lemma_steps_exact(slices, name, ext, base, ty, slices.len() as int);
    lemma_steps_file_count(slices, name, ext, base, ty, slices.len() as int);
    assert(slices.take(slices.len() as int) =~= slices);
}

/// One keysound file per slice with a keysound of its own.
proof fn lemma_steps_file_count(
    slices: Seq<Slice>,
    name: Seq<char>,
    ext: Seq<char>,
    base: nat,
    ty: StemType,
    upto: int,
)
    requires
        0 <= upto <= slices.len(),
        slice_steps(slices, name, ext, base, ty, upto) is Ok,
    ensures
        slice_steps(slices, name, ext, base, ty, upto)->Ok_0.0.len() == autos(slices.take(upto)).len(),
    decreases upto,
{
    if upto > 0 {
        lemma_steps_file_count(slices, name, ext, base, ty, upto - 1);
        assert(slices.take(upto).drop_last() =~= slices.take(upto - 1));
    } else {
        assert(slices.take(0) =~= Seq::<Slice>::empty());
    }
    if upto == slices.len() {
        assert(slices.take(upto) =~= slices);
    }
}

/// No two keysound files of one stem share an object id.
pub proof fn lemma_stem_files_distinct(slices: Seq<Slice>, name: Seq<char>, ext: Seq<char>, base: nat, ty: StemType)
    requires
        slice_steps(slices, name, ext, base, ty, slices.len() as int) is Ok,
    ensures
        ({
            let w = slice_steps(slices, name, ext, base, ty, slices.len() as int)->Ok_0.0;
            forall|i: int, j: int| 0 <= i < j < w.len() ==> (#[trigger] w[i]).0 != (#[trigger] w[j]).0
        }),
{
    let w = slice_steps(slices, name, ext, base, ty, slices.len() as int)->Ok_0.0;
    lemma_steps_labels(slices, name, ext, base, ty, slices.len() as int);
    assert(labelled_from(w, base));
    assert forall|i: int, j: int| 0 <= i < j < w.len() implies (#[trigger] w[i]).0 != (#[trigger] w[j]).0 by {
        if w[i].0 == w[j].0 {
            lemma_label_injective(base + i as nat, base + j as nat);
        }
    }
}

} // verus!
