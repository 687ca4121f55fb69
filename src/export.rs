use vstd::prelude::*;
use crate::cluster::deep_view;

verus! {

/// The bytes that the CSV writer produces for one record, line terminator included.
pub uninterp spec fn csv_record(fields: Seq<Seq<u8>>) -> Seq<u8>;

/// A field that the writer leaves unquoted: it holds no comma, double quote,
/// carriage return or newline.
pub open spec fn plain_field(b: Seq<u8>) -> bool {
    forall|i: int| 0 <= i < b.len() ==> #[trigger] b[i] != 44u8 && b[i] != 34u8 && b[i] != 13u8 && b[i] != 10u8
}

/// A record that the writer writes as its fields joined by commas: plain fields,
/// and not a lone empty field (that one is written as two double quotes).
pub open spec fn plain_record(fs: Seq<Seq<u8>>) -> bool {
    &&& (fs.len() >= 2 || (fs.len() == 1 && fs[0].len() > 0))
    &&& forall|i: int| 0 <= i < fs.len() ==> #[trigger] plain_field(fs[i])
}

/// The fields joined by commas.
pub open spec fn join_fields(fs: Seq<Seq<u8>>) -> Seq<u8>
    decreases fs.len(),
{
    if fs.len() == 0 {
        Seq::empty()
    } else if fs.len() == 1 {
        fs[0]
    } else {
        join_fields(fs.drop_last()) + seq![44u8] + fs.last()
    }
}

/// The bytes of plain records: each one's fields joined by commas, then a newline.
pub open spec fn plain_bytes(records: Seq<Seq<Seq<u8>>>) -> Seq<u8>
    decreases records.len(),
{
    if records.len() == 0 {
        Seq::empty()
    } else {
        plain_bytes(records.drop_last()) + join_fields(records.last()).push(10u8)
    }
}

/// The bytes of each field.
pub open spec fn fields_view(v: Seq<Vec<u8>>) -> Seq<Seq<u8>> {
    v.map_values(|f: Vec<u8>| f@)
}

/// The fields of each record.
pub open spec fn records_view(v: Seq<Vec<Vec<u8>>>) -> Seq<Seq<Seq<u8>>> {
    v.map_values(|r: Vec<Vec<u8>>| fields_view(r@))
}

/// The ASCII decimal digits of `n`, without leading zeros.
pub open spec fn decimal(n: nat) -> Seq<u8>
    decreases n,
{
    if n < 10 {
        seq![(48 + n) as u8]
    } else {
        decimal(n / 10).push((48 + n % 10) as u8)
    }
}

/// `pointx_<i>`, the name of the x column of track `i`.
pub open spec fn x_column(i: nat) -> Seq<u8> {
    seq![112u8, 111u8, 105u8, 110u8, 116u8, 120u8, 95u8] + decimal(i)
}

/// ` pointy_<i>`, the name of the y column of track `i`, with its leading space.
pub open spec fn y_column(i: nat) -> Seq<u8> {
    seq![32u8, 112u8, 111u8, 105u8, 110u8, 116u8, 121u8, 95u8] + decimal(i)
}

/// The column names of the first `k` tracks.
pub open spec fn header_pairs(k: nat) -> Seq<Seq<u8>>
    decreases k,
{
    if k == 0 {
        Seq::empty()
    } else {
        header_pairs((k - 1) as nat) + seq![x_column((k - 1) as nat), y_column((k - 1) as nat)]
    }
}

/// The header record: two column names per track, then one empty field left by
/// the trailing comma.
pub open spec fn header(k: nat) -> Seq<Seq<u8>> {
    header_pairs(k).push(Seq::empty())
}

/// The index of the first of the first `n` entries of `track` detected in frame
/// `f`, or -1 where there is none.
pub open spec fn first_in_frame(track: Seq<(usize, (u32, u32))>, f: int, n: int) -> int
    decreases n,
{
    if n <= 0 {
        -1
    } else {
        let r = first_in_frame(track, f, n - 1);
        if r >= 0 { r } else if track[n - 1].0 == f { n - 1 } else { -1 }
    }
}

/// The position that `track` received in frame `f`: its first detection there, if
/// one centroid or more of that frame joined it.
pub open spec fn detection(track: Seq<(usize, (u32, u32))>, f: int) -> Option<(u32, u32)> {
    let k = first_in_frame(track, f, track.len() as int);
    if k >= 0 { Some(track[k].1) } else { None }
}

/// The x field of a detection: its decimal x, or blank where there is none.
pub open spec fn x_field(d: Option<(u32, u32)>) -> Seq<u8> {
    match d {
        Some(p) => decimal(p.0 as nat),
        None => Seq::empty(),
    }
}

/// The y field of a detection: its decimal y, or blank where there is none.
pub open spec fn y_field(d: Option<(u32, u32)>) -> Seq<u8> {
    match d {
        Some(p) => decimal(p.1 as nat),
        None => Seq::empty(),
    }
}

/// The x and y fields of `track` at frame `f`: the position it received in that
/// frame, or two blanks where it received none.
pub open spec fn cell(track: Seq<(usize, (u32, u32))>, f: int) -> Seq<Seq<u8>> {
    seq![x_field(detection(track, f)), y_field(detection(track, f))]
}

/// The fields of the first `k` tracks at frame `f`.
pub open spec fn row_pairs(ts: Seq<Seq<(usize, (u32, u32))>>, f: int, k: int) -> Seq<Seq<u8>>
    decreases k,
{
    if k <= 0 {
        Seq::empty()
    } else {
        row_pairs(ts, f, k - 1) + cell(ts[k - 1], f)
    }
}

/// The record of frame `f`: two fields per track, then one empty field.
pub open spec fn row(ts: Seq<Seq<(usize, (u32, u32))>>, f: int) -> Seq<Seq<u8>> {
    row_pairs(ts, f, ts.len() as int).push(Seq::empty())
}

/// The trajectory table: the header, then one record per frame in frame order.
pub open spec fn table(ts: Seq<Seq<(usize, (u32, u32))>>, frames: nat) -> Seq<Seq<Seq<u8>>> {
    seq![header(ts.len())] + Seq::new(frames, |f: int| row(ts, f))
}

/// The CSV bytes of `records`, one after the other.
pub open spec fn records_bytes(records: Seq<Seq<Seq<u8>>>) -> Seq<u8>
    decreases records.len(),
{
    if records.len() == 0 {
        Seq::empty()
    } else {
        records_bytes(records.drop_last()) + csv_record(records.last())
    }
}

/// Relies on csv::Writer::write_record, on a writer made by csv::Writer::from_writer
/// over an empty Vec<u8> and emptied by csv::Writer::into_inner: the bytes of the
/// one record written. Those calls fail only where the underlying writer fails or
/// a record's field count differs from the first record's; a Vec<u8> never fails,
/// and a fresh writer sees one record, so the result is always present. With the
/// default settings (delimiter `,`, quote `"`, terminator `\n`, quoting only where
/// necessary) a plain record is written as its fields joined by commas and a newline.
#[verifier::external_body]
fn encode_record(fields: &Vec<Vec<u8>>) -> (res: Option<Vec<u8>>)
    ensures
        res is Some,
        res matches Some(b) ==> b@ == csv_record(fields_view(fields@)),
        res matches Some(b) ==> (plain_record(fields_view(fields@)) ==> b@ == join_fields(fields_view(fields@)).push(10u8)),
{
    let mut wtr = csv::Writer::from_writer(Vec::new());
    wtr.write_record(fields).ok()?;
    wtr.into_inner().ok()
}

/// The ASCII decimal digits of `n`.
pub fn decimal_bytes(n: u64) -> (res: Vec<u8>)
    ensures
        res@ == decimal(n as nat),
    decreases n,
{
    if n < 10 {
        let mut v: Vec<u8> = Vec::new();
        v.push((48 + n) as u8);
        proof { assert(v@ =~= seq![(48 + n) as u8]); }
        v
    } else {
        let mut v = decimal_bytes(n / 10);
        v.push((48 + n % 10) as u8);
        v
    }
}

fn column_name(y_axis: bool, i: usize) -> (res: Vec<u8>)
    ensures
        res@ == (if y_axis { y_column(i as nat) } else { x_column(i as nat) }),
{
    let mut v: Vec<u8> = Vec::new();
    if y_axis {
        v.push(32);
    }
    v.push(112);
    v.push(111);
    v.push(105);
    v.push(110);
    v.push(116);
    v.push(if y_axis { 121 } else { 120 });
    v.push(95);
    let ghost name = v@;
    let mut digits = decimal_bytes(i as u64);
    v.append(&mut digits);
    proof {
        if y_axis {
            assert(name =~= seq![32u8, 112u8, 111u8, 105u8, 110u8, 116u8, 121u8, 95u8]);
        } else {
            assert(name =~= seq![112u8, 111u8, 105u8, 110u8, 116u8, 120u8, 95u8]);
        }
    }
    v
}

/// The header record for `k` tracks.
pub fn header_record(k: usize) -> (res: Vec<Vec<u8>>)
    ensures
        fields_view(res@) == header(k as nat),
{
    let mut out: Vec<Vec<u8>> = Vec::new();
    let mut i: usize = 0;
    while i < k
        invariant
            i <= k,
            fields_view(out@) == header_pairs(i as nat),
        decreases k - i,
    {
        let ghost before = fields_view(out@);
        let xname = column_name(false, i);
        let yname = column_name(true, i);
        out.push(xname);
        out.push(yname);
        proof {
            assert(fields_view(out@) =~= before + seq![x_column(i as nat), y_column(i as nat)]);
        }
        i += 1;
    }
    let ghost pairs = fields_view(out@);
    out.push(Vec::new());
    proof { assert(fields_view(out@) =~= pairs.push(Seq::empty())); }
    out
}

proof fn lemma_first_stays(track: Seq<(usize, (u32, u32))>, f: int, k: int, n: int)
    requires
        0 <= k < n,
        first_in_frame(track, f, k + 1) == k,
    ensures
        first_in_frame(track, f, n) == k,
    decreases n,
{
    if n > k + 1 {
        lemma_first_stays(track, f, k, n - 1);
    }
}

/// The position that `track` received in frame `f`, if any: its first entry
/// detected in that frame.
pub fn detection_in_frame(track: &Vec<(usize, (u32, u32))>, f: usize) -> (res: Option<(u32, u32)>)
    ensures
        res == detection(track@, f as int),
{
    let mut k: usize = 0;
    while k < track.len()
        invariant
            k <= track@.len(),
            first_in_frame(track@, f as int, k as int) == -1,
        decreases track@.len() - k,
    {
        let (g, p) = track[k];
        if g == f {
            proof { lemma_first_stays(track@, f as int, k as int, track@.len() as int); }
            return Some(p);
        }
        k += 1;
    }
    None
}

/// Fields `2j` and `2j + 1` of the first `k` tracks' fields at frame `f` are the x
/// and y fields of track `j` there.
proof fn lemma_row_pairs_fields(ts: Seq<Seq<(usize, (u32, u32))>>, f: int, k: int, j: int)
    requires
        0 <= j < k,
    ensures
        row_pairs(ts, f, k).len() == 2 * k,
        row_pairs(ts, f, k)[2 * j] == x_field(detection(ts[j], f)),
        row_pairs(ts, f, k)[2 * j + 1] == y_field(detection(ts[j], f)),
    decreases k,
{
    lemma_row_pairs_len(ts, f, k);
    if j < k - 1 {
        lemma_row_pairs_fields(ts, f, k - 1, j);
    } else {
        lemma_row_pairs_len(ts, f, k - 1);
    }
}

proof fn lemma_row_pairs_len(ts: Seq<Seq<(usize, (u32, u32))>>, f: int, k: int)
    requires
        0 <= k,
    ensures
        row_pairs(ts, f, k).len() == 2 * k,
    decreases k,
{
    if k > 0 {
        lemma_row_pairs_len(ts, f, k - 1);
    }
}

/// The record of frame `f`.
pub fn row_record(tracks: &Vec<Vec<(usize, (u32, u32))>>, f: usize) -> (res: Vec<Vec<u8>>)
    ensures
        fields_view(res@) == row(deep_view(tracks@), f as int),
{
    let ghost ts = deep_view(tracks@);
    let mut out: Vec<Vec<u8>> = Vec::new();
    let mut j: usize = 0;
    while j < tracks.len()
        invariant
            ts == deep_view(tracks@),
            j <= tracks@.len(),
            fields_view(out@) == row_pairs(ts, f as int, j as int),
        decreases tracks@.len() - j,
    {
        let ghost before = fields_view(out@);
        let t = &tracks[j];
        proof { assert(ts[j as int] == t@); }
        match detection_in_frame(t, f) {
            Some((px, py)) => {
                out.push(decimal_bytes(px as u64));
                out.push(decimal_bytes(py as u64));
            },
            None => {
                out.push(Vec::new());
                out.push(Vec::new());
            },
        }
        proof {
            assert(fields_view(out@) =~= before + cell(ts[j as int], f as int));
        }
        j += 1;
    }
    let ghost pairs = fields_view(out@);
    out.push(Vec::new());
    proof { assert(fields_view(out@) =~= pairs.push(Seq::empty())); }
    out
}

/// The trajectory table of `tracks` over `frames` frames: a header naming an x and
/// a y column per track, then one record per frame. The record of frame `f` holds,
/// for each track, the position it received in frame `f` (its first, where several
/// centroids of that frame joined it), or two blank fields where it received none.
pub fn trajectory_table(tracks: &Vec<Vec<(usize, (u32, u32))>>, frames: usize) -> (res: Vec<Vec<Vec<u8>>>)
    ensures
        records_view(res@) == table(deep_view(tracks@), frames as nat),
        records_view(res@).len() == frames + 1,
        forall|f: int| 0 <= f < frames ==> #[trigger] records_view(res@)[f + 1].len() == 2 * tracks@.len() + 1,
        forall|f: int, j: int| 0 <= f < frames && 0 <= j < tracks@.len() ==>
            records_view(res@)[f + 1][2 * j] == x_field(#[trigger] detection(deep_view(tracks@)[j], f))
            && records_view(res@)[f + 1][2 * j + 1] == y_field(detection(deep_view(tracks@)[j], f)),
{
    let ghost ts = deep_view(tracks@);
    let mut out: Vec<Vec<Vec<u8>>> = Vec::new();
    out.push(header_record(tracks.len()));
    let mut f: usize = 0;
    while f < frames
        invariant
            ts == deep_view(tracks@),
            f <= frames,
            records_view(out@) == seq![header(ts.len())] + Seq::new(f as nat, |g: int| row(ts, g)),
        decreases frames - f,
    {
        let ghost before = records_view(out@);
        let r = row_record(tracks, f);
        out.push(r);
        proof {
            assert(records_view(out@) =~= before.push(fields_view(r@)));
            assert(records_view(out@) =~= seq![header(ts.len())] + Seq::new(f as nat + 1, |g: int| row(ts, g)));
        }
        f += 1;
    }
    proof {
        let rv = records_view(out@);
        assert forall|g: int| 0 <= g < frames implies #[trigger] rv[g + 1].len() == 2 * tracks@.len() + 1 by {
            assert(rv[g + 1] == row(ts, g));
            lemma_row_pairs_len(ts, g, ts.len() as int);
        }
        assert forall|g: int, j: int| 0 <= g < frames && 0 <= j < tracks@.len() implies
            rv[g + 1][2 * j] == x_field(#[trigger] detection(deep_view(tracks@)[j], g))
            && rv[g + 1][2 * j + 1] == y_field(detection(deep_view(tracks@)[j], g)) by {
            assert(rv[g + 1] == row(ts, g));
            lemma_row_pairs_fields(ts, g, ts.len() as int, j);
        }
    }
    out
}

proof fn lemma_plain_bytes(rs: Seq<Seq<Seq<u8>>>)
    requires
        forall|k: int| 0 <= k < rs.len() ==> #[trigger] csv_record(rs[k]) == join_fields(rs[k]).push(10u8),
    ensures
        records_bytes(rs) == plain_bytes(rs),
    decreases rs.len(),
{
    if rs.len() > 0 {
        let t = rs.drop_last();
        assert forall|k: int| 0 <= k < t.len() implies #[trigger] csv_record(t[k]) == join_fields(t[k]).push(10u8) by {
            assert(t[k] == rs[k]);
        }
        lemma_plain_bytes(t);
        assert(csv_record(rs[rs.len() - 1]) == join_fields(rs[rs.len() - 1]).push(10u8));
    }
}

/// The CSV bytes of `records`, one record after the other; where every record is
/// plain, each one's fields joined by commas and ended by a newline.
pub fn encode_records(records: &Vec<Vec<Vec<u8>>>) -> (res: Vec<u8>)
    ensures
        res@ == records_bytes(records_view(records@)),
        (forall|k: int| 0 <= k < records@.len() ==> #[trigger] plain_record(records_view(records@)[k]))
            ==> res@ == plain_bytes(records_view(records@)),
{
    let ghost rs = records_view(records@);
    let mut out: Vec<u8> = Vec::new();
    let mut i: usize = 0;
    while i < records.len()
        invariant
            rs == records_view(records@),
            i <= records@.len(),
            out@ == records_bytes(rs.take(i as int)),
            forall|k: int| 0 <= k < i && plain_record(rs[k]) ==> #[trigger] csv_record(rs[k]) == join_fields(rs[k]).push(10u8),
        decreases records@.len() - i,
    {
        let encoded = encode_record(&records[i]);
        proof {
            assert(rs.take(i as int + 1).drop_last() =~= rs.take(i as int));
            assert(rs[i as int] == fields_view(records@[i as int]@));
        }
        if let Some(mut b) = encoded {
            out.append(&mut b);
        }
        i += 1;
    }
    proof {
        assert(rs.take(records@.len() as int) =~= rs);
        if forall|k: int| 0 <= k < records@.len() ==> #[trigger] plain_record(rs[k]) {
            assert forall|k: int| 0 <= k < rs.len() implies #[trigger] csv_record(rs[k]) == join_fields(rs[k]).push(10u8) by {
                assert(plain_record(rs[k]));
            }
            lemma_plain_bytes(rs);
        }
    }
    out
}

proof fn lemma_decimal_plain(n: nat)
    ensures
        plain_field(decimal(n)),
        decimal(n).len() > 0,
    decreases n,
{
    if n >= 10 {
        lemma_decimal_plain(n / 10);
        let d = decimal(n / 10);
        assert forall|i: int| 0 <= i < decimal(n).len() implies #[trigger] decimal(n)[i] != 44u8 && decimal(n)[i] != 34u8
            && decimal(n)[i] != 13u8 && decimal(n)[i] != 10u8 by {
            if i < d.len() {
                assert(decimal(n)[i] == d[i]);
            }
        }
    }
}

proof fn lemma_header_pairs_fields(k: nat, j: int)
    requires
        0 <= j < k,
    ensures
        header_pairs(k).len() == 2 * k,
        header_pairs(k)[2 * j] == x_column(j as nat),
        header_pairs(k)[2 * j + 1] == y_column(j as nat),
    decreases k,
{
    lemma_header_pairs_len((k - 1) as nat);
    if j < k - 1 {
        lemma_header_pairs_fields((k - 1) as nat, j);
    }
}

proof fn lemma_header_pairs_len(k: nat)
    ensures
        header_pairs(k).len() == 2 * k,
    decreases k,
{
    if k > 0 {
        lemma_header_pairs_len((k - 1) as nat);
    }
}

/// Fields `2j` and `2j + 1` are plain, and so is the empty field after them all.
proof fn lemma_pairs_plain(fs: Seq<Seq<u8>>, k: int)
    requires
        k >= 1,
        fs.len() == 2 * k + 1,
        fs[2 * k].len() == 0,
        forall|j: int| 0 <= j < k ==> #[trigger] plain_field(fs[2 * j]) && plain_field(fs[2 * j + 1]),
    ensures
        plain_record(fs),
{
    assert forall|i: int| 0 <= i < fs.len() implies #[trigger] plain_field(fs[i]) by {
        if i < 2 * k {
            let j = i / 2;
            assert(plain_field(fs[2 * j]) && plain_field(fs[2 * j + 1]));
            assert(i == 2 * j || i == 2 * j + 1);
        }
    }
}

/// With at least one track, every record of the table is plain.
proof fn lemma_table_plain(ts: Seq<Seq<(usize, (u32, u32))>>, frames: nat)
    requires
        ts.len() > 0,
    ensures
        forall|r: int| 0 <= r < table(ts, frames).len() ==> #[trigger] plain_record(table(ts, frames)[r]),
{
    let t = table(ts, frames);
    let k = ts.len() as int;
    assert forall|r: int| 0 <= r < t.len() implies #[trigger] plain_record(t[r]) by {
        if r == 0 {
            let h = header(k as nat);
            lemma_header_pairs_len(k as nat);
            assert forall|j: int| 0 <= j < k implies #[trigger] plain_field(h[2 * j]) && plain_field(h[2 * j + 1]) by {
                lemma_header_pairs_fields(k as nat, j);
                lemma_decimal_plain(j as nat);
                let px = seq![112u8, 111u8, 105u8, 110u8, 116u8, 120u8, 95u8];
                let py = seq![32u8, 112u8, 111u8, 105u8, 110u8, 116u8, 121u8, 95u8];
                let d = decimal(j as nat);
                assert forall|i: int| 0 <= i < (px + d).len() implies #[trigger] (px + d)[i] != 44u8 && (px + d)[i] != 34u8
                    && (px + d)[i] != 13u8 && (px + d)[i] != 10u8 by {
                    if i >= px.len() { assert((px + d)[i] == d[i - px.len()]); }
                }
                assert forall|i: int| 0 <= i < (py + d).len() implies #[trigger] (py + d)[i] != 44u8 && (py + d)[i] != 34u8
                    && (py + d)[i] != 13u8 && (py + d)[i] != 10u8 by {
                    if i >= py.len() { assert((py + d)[i] == d[i - py.len()]); }
                }
            }
            lemma_pairs_plain(h, k);
        } else {
            let f = r - 1;
            let w = row(ts, f);
            assert(t[r] == w);
            lemma_row_pairs_len(ts, f, k);
            assert forall|j: int| 0 <= j < k implies #[trigger] plain_field(w[2 * j]) && plain_field(w[2 * j + 1]) by {
                lemma_row_pairs_fields(ts, f, k, j);
                match detection(ts[j], f) {
                    Some(p) => {
                        lemma_decimal_plain(p.0 as nat);
                        lemma_decimal_plain(p.1 as nat);
                    },
                    None => {},
                }
            }
            lemma_pairs_plain(w, k);
        }
    }
}

/// The trajectory table as CSV bytes. With at least one track every field is
/// written as it is: each record is its fields joined by commas and a newline.
pub fn export_csv(tracks: &Vec<Vec<(usize, (u32, u32))>>, frames: usize) -> (res: Vec<u8>)
    ensures
        res@ == records_bytes(table(deep_view(tracks@), frames as nat)),
        tracks@.len() > 0 ==> res@ == plain_bytes(table(deep_view(tracks@), frames as nat)),
{
    let records = trajectory_table(tracks, frames);
    proof {
        if tracks@.len() > 0 {
            lemma_table_plain(deep_view(tracks@), frames as nat);
        }
    }
    encode_records(&records)
}

} // verus!
