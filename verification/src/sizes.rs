use vstd::prelude::*;

verus! {

/// The number of leading bytes of `line` before its first tab (all of them
/// when it has none).
pub open spec fn first_tab(line: Seq<u8>) -> int
    decreases line.len(),
{
    if line.len() == 0 {
        0
    } else if line[0] == 9u8 {
        0
    } else {
        1 + first_tab(line.drop_first())
    }
}

proof fn lemma_first_tab_bounds(line: Seq<u8>)
    ensures
        0 <= first_tab(line) <= line.len(),
        first_tab(line) < line.len() ==> line[first_tab(line)] == 9u8,
        forall|j: int| 0 <= j < first_tab(line) ==> line[j] != 9u8,
    decreases line.len(),
{
    if line.len() > 0 && line[0] != 9u8 {
        lemma_first_tab_bounds(line.drop_first());
        let ft = first_tab(line);
        assert forall|j: int| 0 <= j < ft implies line[j] != 9u8 by {
            if j > 0 {
                assert(line.drop_first()[j - 1] != 9u8);
            }
        }
        if ft < line.len() {
            assert(line[ft] == line.drop_first()[ft - 1]);
        }
    }
}

/// The `n`-th tab-separated column of a line, if the line has that many.
pub open spec fn column_opt(line: Seq<u8>, n: int) -> Option<Seq<u8>>
    decreases n,
{
    if n <= 0 {
        Some(line.subrange(0, first_tab(line)))
    } else if first_tab(line) == line.len() {
        None
    } else {
        column_opt(line.subrange(first_tab(line) + 1, line.len() as int), n - 1)
    }
}

/// Extracts the `n`-th tab-separated column of a line.
pub fn get_column(line: &Vec<u8>, n: usize) -> (r: Option<Vec<u8>>)
    ensures
        match r {
            Some(c) => column_opt(line@, n as int) == Some(c@),
            None => column_opt(line@, n as int) is None,
        },
{
    let mut start: usize = 0;
    let mut col: usize = 0;
    proof {
        assert(line@.skip(0) =~= line@);
    }
    while col < n
        invariant
            0 <= start <= line@.len(),
            col <= n,
            column_opt(line@, n as int) == column_opt(
                line@.skip(start as int),
                n as int - col as int,
            ),
        decreases n - col,
    {
        let ghost rest = line@.skip(start as int);
        proof {
            lemma_first_tab_bounds(rest);
        }
        // find the next tab
        let mut t: usize = start;
        while t < line.len() && line[t] != 9u8
            invariant
                start <= t <= line@.len(),
                rest == line@.skip(start as int),
                forall|j: int| start <= j < t ==> line@[j] != 9u8,
            decreases line@.len() - t,
        {
            t = t + 1;
        }
        proof {
            // the scan found exactly the first tab of the suffix
            assert forall|j: int| 0 <= j < t - start implies rest[j] != 9u8 by {
                assert(rest[j] == line@[start + j]);
            }
            if t < line@.len() {
                assert(rest[t - start] == 9u8);
                assert(first_tab(rest) == t - start) by {
                    if first_tab(rest) < t - start {
                        assert(rest[first_tab(rest)] != 9u8);
                    }
                    if first_tab(rest) > t - start {
                        assert(rest[t - start] != 9u8);
                    }
                }
            } else {
                assert(first_tab(rest) == rest.len()) by {
                    if first_tab(rest) < rest.len() {
                        assert(rest[first_tab(rest)] == 9u8);
                        assert(line@[start + first_tab(rest)] == 9u8);
                    }
                }
            }
        }
        if t >= line.len() {
            return None;
        }
        proof {
            assert(rest.subrange(first_tab(rest) + 1, rest.len() as int) =~= line@.skip(
                t as int + 1,
            ));
        }
        start = t + 1;
        col = col + 1;
    }
    // copy the column's bytes up to the next tab
    let ghost rest = line@.skip(start as int);
    proof {
        lemma_first_tab_bounds(rest);
    }
    let mut t: usize = start;
    while t < line.len() && line[t] != 9u8
        invariant
            start <= t <= line@.len(),
            rest == line@.skip(start as int),
            forall|j: int| start <= j < t ==> line@[j] != 9u8,
        decreases line@.len() - t,
    {
        t = t + 1;
    }
    proof {
        assert forall|j: int| 0 <= j < t - start implies rest[j] != 9u8 by {
            assert(rest[j] == line@[start + j]);
        }
        if t < line@.len() {
            assert(rest[t - start] == 9u8);
            assert(first_tab(rest) == t - start) by {
                if first_tab(rest) < t - start {
                    assert(rest[first_tab(rest)] != 9u8);
                }
                if first_tab(rest) > t - start {
                    assert(rest[t - start] != 9u8);
                }
            }
        } else {
            assert(first_tab(rest) == rest.len()) by {
                if first_tab(rest) < rest.len() {
                    assert(rest[first_tab(rest)] == 9u8);
                    assert(line@[start + first_tab(rest)] == 9u8);
                }
            }
        }
    }
    let mut c: Vec<u8> = Vec::new();
    let mut x: usize = start;
    while x < t
        invariant
            start <= x <= t <= line@.len(),
            c@ =~= line@.subrange(start as int, x as int),
        decreases t - x,
    {
        c.push(line[x]);
        x = x + 1;
    }
    proof {
        assert(c@ =~= rest.subrange(0, first_tab(rest)));
    }
    Some(c)
}

pub open spec fn is_digit(b: u8) -> bool {
    48 <= b <= 57
}

pub open spec fn all_digits(s: Seq<u8>) -> bool {
    forall|i: int| 0 <= i < s.len() ==> is_digit(#[trigger] s[i])
}

/// The value of a string of decimal digits.
pub open spec fn digits_val(s: Seq<u8>) -> int
    decreases s.len(),
{
    if s.len() == 0 {
        0
    } else {
        digits_val(s.drop_last()) * 10 + (s.last() - 48)
    }
}

proof fn lemma_digits_val_nonneg(s: Seq<u8>)
    requires
        all_digits(s),
    ensures
        digits_val(s) >= 0,
    decreases s.len(),
{
    if s.len() > 0 {
        assert(all_digits(s.drop_last()));
        lemma_digits_val_nonneg(s.drop_last());
    }
}

proof fn lemma_digits_val_prefix(s: Seq<u8>, i: int)
    requires
        all_digits(s),
        0 <= i <= s.len(),
    ensures
        digits_val(s.subrange(0, i)) <= digits_val(s),
    decreases s.len() - i,
{
    if i < s.len() {
        lemma_digits_val_prefix(s, i + 1);
        let p = s.subrange(0, i);
        let q = s.subrange(0, i + 1);
        assert(q.drop_last() =~= p);
        assert(all_digits(p));
        lemma_digits_val_nonneg(p);
        assert(digits_val(q) == digits_val(p) * 10 + (q.last() - 48));
    } else {
        assert(s.subrange(0, i) =~= s);
    }
}

/// The digit part of a decimal rendering: the bytes after an optional
/// leading plus sign.
pub open spec fn digits_part(s: Seq<u8>) -> Seq<u8> {
    if s.len() > 0 && s[0] == 43u8 {
        s.drop_first()
    } else {
        s
    }
}

/// What parsing a machine word out of decimal text yields: the digits'
/// value when the text is a well-formed decimal that fits, nothing
/// otherwise.
pub open spec fn parse_u64_spec(s: Seq<u8>) -> Option<int> {
    let d = digits_part(s);
    if d.len() > 0 && all_digits(d) && digits_val(d) <= u64::MAX {
        Some(digits_val(d))
    } else {
        None
    }
}

/// Parses decimal text (optionally with a leading plus sign) into a machine
/// word; fails on empty or malformed text and on values that do not fit.
pub fn parse_u64(s: &Vec<u8>) -> (r: Option<u64>)
    ensures
        match r {
            Some(v) => parse_u64_spec(s@) == Some(v as int),
            None => parse_u64_spec(s@) is None,
        },
{
    let start: usize = if s.len() > 0 && s[0] == 43u8 {
        1
    } else {
        0
    };
    let ghost d = digits_part(s@);
    proof {
        assert(d =~= s@.skip(start as int));
    }
    if s.len() == start {
        return None;
    }
    let mut acc: u64 = 0;
    let mut i: usize = start;
    proof {
        assert(d.subrange(0, 0) =~= Seq::<u8>::empty());
    }
    while i < s.len()
        invariant
            start <= i <= s@.len(),
            d == digits_part(s@),
            d =~= s@.skip(start as int),
            start <= 1,
            s@.len() > start,
            all_digits(d.subrange(0, i - start)),
            acc as int == digits_val(d.subrange(0, i - start)),
        decreases s@.len() - i,
    {
        let b = s[i];
        if b < 48 || b > 57 {
            proof {
                assert(d[i - start] == s@[i as int]);
                assert(!all_digits(d));
            }
            return None;
        }
        let wide: u128 = (acc as u128) * 10 + ((b - 48) as u128);
        proof {
            let p = d.subrange(0, i - start);
            let q = d.subrange(0, i + 1 - start);
            assert(q.drop_last() =~= p);
            assert(q.last() == s@[i as int]);
            assert(all_digits(q));
        }
        if wide > 0xffff_ffff_ffff_ffffu128 {
            proof {
                assert(digits_val(d.subrange(0, i + 1 - start)) > u64::MAX);
                if all_digits(d) {
                    lemma_digits_val_prefix(d, i + 1 - start);
                    assert(digits_val(d) > u64::MAX);
                }
            }
            return None;
        }
        acc = wide as u64;
        i = i + 1;
    }
    proof {
        assert(d.subrange(0, s@.len() - start) =~= d);
    }
    Some(acc)
}

/// Strips every trailing line-feed, then every trailing carriage return.
pub open spec fn trim_nl(s: Seq<u8>) -> Seq<u8>
    decreases s.len(),
{
    if s.len() > 0 && s.last() == 10u8 {
        trim_nl(s.drop_last())
    } else {
        s
    }
}

pub open spec fn trim_cr(s: Seq<u8>) -> Seq<u8>
    decreases s.len(),
{
    if s.len() > 0 && s.last() == 13u8 {
        trim_cr(s.drop_last())
    } else {
        s
    }
}

pub open spec fn trim_line(s: Seq<u8>) -> Seq<u8> {
    trim_cr(trim_nl(s))
}

/// Removes a line's trailing newline and carriage-return bytes.
pub fn trim_line_end(line: &Vec<u8>) -> (r: Vec<u8>)
    ensures
        r@ == trim_line(line@),
{
    let mut r: Vec<u8> = Vec::new();
    let mut i: usize = 0;
    while i < line.len()
        invariant
            0 <= i <= line@.len(),
            r@ =~= line@.subrange(0, i as int),
        decreases line@.len() - i,
    {
        r.push(line[i]);
        i = i + 1;
    }
    proof {
        assert(r@ =~= line@);
    }
    loop
        invariant
            trim_nl(r@) == trim_nl(line@),
        ensures
            r@.len() == 0 || r@.last() != 10u8,
        decreases r@.len(),
    {
        if r.len() == 0 {
            break ;
        }
        let last = r[r.len() - 1];
        if last != 10u8 {
            break ;
        }
        let ghost before = r@;
        let _ = r.pop();
        proof {
            assert(r@ =~= before.drop_last());
        }
    }
    proof {
        assert(trim_nl(r@) == r@);
    }
    loop
        invariant
            trim_cr(r@) == trim_cr(trim_nl(line@)),
        ensures
            r@.len() == 0 || r@.last() != 13u8,
        decreases r@.len(),
    {
        if r.len() == 0 {
            break ;
        }
        let last = r[r.len() - 1];
        if last != 13u8 {
            break ;
        }
        let ghost before = r@;
        let _ = r.pop();
        proof {
            assert(r@ =~= before.drop_last());
        }
    }
    proof {
        assert(trim_cr(r@) == r@);
    }
    r
}

/// What one sizes-file line contributes: its first column as the chromosome
/// name, remapped through the table, with its second column read as a size —
/// nothing when a column is missing or the size does not parse.
pub open spec fn size_entry_spec(line: Seq<u8>, chrmap: Seq<(Seq<u8>, Seq<u8>)>) -> Option<
    (Seq<u8>, u64),
> {
    let t = trim_line(line);
    match column_opt(t, 0) {
        None => None,
        Some(chr) => match column_opt(t, 1) {
            None => None,
            Some(szs) => match parse_u64_spec(szs) {
                None => None,
                Some(v) => Some((remap_bytes(chrmap, chr), v as u64)),
            },
        },
    }
}

/// A name remapped through a byte-keyed table: the first matching entry's
/// value, or the name itself.
pub open spec fn remap_bytes(chrmap: Seq<(Seq<u8>, Seq<u8>)>, name: Seq<u8>) -> Seq<u8>
    decreases chrmap.len(),
{
    if chrmap.len() == 0 {
        name
    } else if chrmap[0].0 == name {
        chrmap[0].1
    } else {
        remap_bytes(chrmap.drop_first(), name)
    }
}

pub open spec fn chrmap_view(m: Seq<(Vec<u8>, Vec<u8>)>) -> Seq<(Seq<u8>, Seq<u8>)> {
    m.map_values(|p: (Vec<u8>, Vec<u8>)| (p.0@, p.1@))
}

fn bytes_eq(a: &Vec<u8>, b: &Vec<u8>) -> (r: bool)
    ensures
        r == (a@ == b@),
{
    if a.len() != b.len() {
        proof {
            assert(a@.len() != b@.len());
        }
        return false;
    }
    let mut i: usize = 0;
    while i < a.len()
        invariant
            0 <= i <= a@.len(),
            a@.len() == b@.len(),
            forall|j: int| 0 <= j < i ==> a@[j] == b@[j],
        decreases a@.len() - i,
    {
        if a[i] != b[i] {
            return false;
        }
        i = i + 1;
    }
    proof {
        assert(a@ =~= b@);
    }
    true
}

/// Remaps a chromosome name through the table.
pub fn remap_name(chrmap: &Vec<(Vec<u8>, Vec<u8>)>, name: &Vec<u8>) -> (r: Vec<u8>)
    ensures
        r@ == remap_bytes(chrmap_view(chrmap@), name@),
{
    let ghost cm = chrmap_view(chrmap@);
    let mut i: usize = 0;
    proof {
        assert(cm.skip(0) =~= cm);
    }
    while i < chrmap.len()
        invariant
            0 <= i <= chrmap@.len(),
            cm == chrmap_view(chrmap@),
            remap_bytes(cm.skip(i as int), name@) == remap_bytes(cm, name@),
        decreases chrmap@.len() - i,
    {
        proof {
            assert(cm.skip(i as int).drop_first() =~= cm.skip(i as int + 1));
            assert(cm.skip(i as int)[0] == cm[i as int]);
        }
        if bytes_eq(&chrmap[i].0, name) {
            let mut out: Vec<u8> = Vec::new();
            let v = &chrmap[i].1;
            let mut j: usize = 0;
            while j < v.len()
                invariant
                    0 <= j <= v@.len(),
                    out@ =~= v@.subrange(0, j as int),
                    v == &chrmap@[i as int].1,
                    i < chrmap@.len(),
                decreases v@.len() - j,
            {
                out.push(v[j]);
                j = j + 1;
            }
            proof {
                assert(out@ =~= chrmap@[i as int].1@);
            }
            return out;
        }
        i = i + 1;
    }
    proof {
        assert(cm.skip(cm.len() as int) =~= Seq::<(Seq<u8>, Seq<u8>)>::empty());
    }
    let mut out: Vec<u8> = Vec::new();
    let mut j: usize = 0;
    while j < name.len()
        invariant
            0 <= j <= name@.len(),
            out@ =~= name@.subrange(0, j as int),
        decreases name@.len() - j,
    {
        out.push(name[j]);
        j = j + 1;
    }
    proof {
        assert(out@ =~= name@);
    }
    out
}

/// Reads one sizes-file line: first column the chromosome name (remapped),
/// second column its size.
pub fn parse_size_line(line: &Vec<u8>, chrmap: &Vec<(Vec<u8>, Vec<u8>)>) -> (r: Option<
    (Vec<u8>, u64),
>)
    ensures
        match r {
            Some(p) => size_entry_spec(line@, chrmap_view(chrmap@)) == Some((p.0@, p.1)),
            None => size_entry_spec(line@, chrmap_view(chrmap@)) is None,
        },
{
    let t = trim_line_end(line);
    let chr = match get_column(&t, 0) {
        Some(c) => c,
        None => {
            return None;
        },
    };
    let szs = match get_column(&t, 1) {
        Some(c) => c,
        None => {
            return None;
        },
    };
    let v = match parse_u64(&szs) {
        Some(v) => v,
        None => {
            return None;
        },
    };
    let mapped = remap_name(chrmap, &chr);
    Some((mapped, v))
}

/// What samtools-style index statistics sum to: the third column of each
/// line read as a count, unreadable lines contributing nothing.
pub open spec fn idx_count(line: Seq<u8>) -> int {
    match column_opt(line, 2) {
        None => 0,
        Some(c) => match parse_u64_spec(c) {
            None => 0,
            Some(v) => v,
        },
    }
}

pub open spec fn idx_total(lines: Seq<Seq<u8>>) -> int
    decreases lines.len(),
{
    if lines.len() == 0 {
        0
    } else {
        idx_count(lines[0]) + idx_total(lines.drop_first())
    }
}

proof fn lemma_idx_total_nonneg(lines: Seq<Seq<u8>>)
    ensures
        idx_total(lines) >= 0,
    decreases lines.len(),
{
    if lines.len() > 0 {
        lemma_idx_total_nonneg(lines.drop_first());
        let c = lines[0];
        if column_opt(c, 2) is Some {
            let col = column_opt(c, 2)->Some_0;
            if parse_u64_spec(col) is Some {
                let d = digits_part(col);
                lemma_digits_val_nonneg(d);
            }
        }
    }
}

pub open spec fn lines_view(lines: Seq<Vec<u8>>) -> Seq<Seq<u8>> {
    lines.map_values(|l: Vec<u8>| l@)
}

/// Sums the per-sequence read counts of index-statistics lines; fails
/// exactly when the sum does not fit in a machine word.
pub fn sum_idxstats(lines: &Vec<Vec<u8>>) -> (r: Option<u64>)
    ensures
        (idx_total(lines_view(lines@)) <= u64::MAX) <==> (r is Some),
        r matches Some(v) ==> v as int == idx_total(lines_view(lines@)),
{
    let ghost lv = lines_view(lines@);
    let mut total: u64 = 0;
    let mut i: usize = 0;
    proof {
        assert(lv.subrange(0, lv.len() as int) =~= lv);
    }
    while i < lines.len()
        invariant
            0 <= i <= lines@.len(),
            lv == lines_view(lines@),
            total as int + idx_total(lv.subrange(i as int, lv.len() as int)) == idx_total(lv),
        decreases lines@.len() - i,
    {
        let ghost suffix = lv.subrange(i as int, lv.len() as int);
        proof {
            assert(suffix.drop_first() =~= lv.subrange(i as int + 1, lv.len() as int));
            assert(suffix[0] == lv[i as int]);
            lemma_idx_total_nonneg(suffix.drop_first());
        }
        let c = match get_column(&lines[i], 2) {
            Some(c) => match parse_u64(&c) {
                Some(v) => v,
                None => 0,
            },
            None => 0,
        };
        proof {
            assert(c as int == idx_count(lv[i as int]));
        }
        if c > u64::MAX - total {
            proof {
                assert(idx_total(lv) > u64::MAX);
            }
            return None;
        }
        total = total + c;
        i = i + 1;
    }
    proof {
        assert(lv.subrange(lv.len() as int, lv.len() as int) =~= Seq::<Seq<u8>>::empty());
    }
    Some(total)
}

pub open spec fn pairs_view(s: Seq<(Vec<u8>, u64)>) -> Seq<(Seq<u8>, u64)> {
    s.map_values(|p: (Vec<u8>, u64)| (p.0@, p.1))
}

/// A map update: the first entry with the key is replaced in place, a fresh
/// key goes to the back.
pub open spec fn upsert_spec(m: Seq<(Seq<u8>, u64)>, k: Seq<u8>, v: u64) -> Seq<(Seq<u8>, u64)>
    decreases m.len(),
{
    if m.len() == 0 {
        seq![(k, v)]
    } else if m[0].0 == k {
        seq![(k, v)] + m.drop_first()
    } else {
        seq![m[0]] + upsert_spec(m.drop_first(), k, v)
    }
}

/// The chromosome-size table a sizes file denotes: each readable line's
/// entry applied in order, later lines overriding earlier ones.
pub open spec fn sizes_map_spec(lines: Seq<Seq<u8>>, chrmap: Seq<(Seq<u8>, Seq<u8>)>) -> Seq<
    (Seq<u8>, u64),
>
    decreases lines.len(),
{
    if lines.len() == 0 {
        Seq::<(Seq<u8>, u64)>::empty()
    } else {
        let m = sizes_map_spec(lines.drop_last(), chrmap);
        match size_entry_spec(lines.last(), chrmap) {
            None => m,
            Some(p) => upsert_spec(m, p.0, p.1),
        }
    }
}

fn upsert(m: &mut Vec<(Vec<u8>, u64)>, k: Vec<u8>, v: u64)
    ensures
        pairs_view(final(m)@) == upsert_spec(pairs_view(old(m)@), k@, v),
{
    let ghost mv = pairs_view(m@);
    let mut i: usize = 0;
    proof {
        assert(mv.subrange(0, 0) =~= Seq::<(Seq<u8>, u64)>::empty());
        assert(mv.subrange(0, mv.len() as int) =~= mv);
        assert(upsert_spec(mv, k@, v) == mv.subrange(0, 0) + upsert_spec(
            mv.subrange(0, mv.len() as int),
            k@,
            v,
        ));
    }
    while i < m.len()
        invariant
            0 <= i <= m@.len(),
            m@ == old(m)@,
            mv == pairs_view(m@),
            upsert_spec(mv, k@, v) == mv.subrange(0, i as int) + upsert_spec(
                mv.subrange(i as int, mv.len() as int),
                k@,
                v,
            ),
        decreases m@.len() - i,
    {
        let ghost suffix = mv.subrange(i as int, mv.len() as int);
        proof {
            assert(suffix.drop_first() =~= mv.subrange(i as int + 1, mv.len() as int));
            assert(suffix[0] == mv[i as int]);
        }
        if bytes_eq(&m[i].0, &k) {
            let _ = m.remove(i);
            m.insert(i, (k, v));
            proof {
                assert(pairs_view(m@) =~= mv.subrange(0, i as int) + (seq![(k@, v)]
                    + suffix.drop_first()));
                assert(upsert_spec(suffix, k@, v) == seq![(k@, v)] + suffix.drop_first());
                assert(pairs_view(m@) =~= upsert_spec(mv, k@, v));
            }
            return ;
        }
        proof {
            assert(mv.subrange(0, i as int + 1) =~= mv.subrange(0, i as int) + seq![mv[i as int]]);
            assert(mv.subrange(0, i as int) + (seq![suffix[0]] + upsert_spec(
                suffix.drop_first(),
                k@,
                v,
            )) =~= mv.subrange(0, i as int + 1) + upsert_spec(suffix.drop_first(), k@, v));
        }
        i = i + 1;
    }
    proof {
        assert(mv.subrange(i as int, mv.len() as int) =~= Seq::<(Seq<u8>, u64)>::empty());
    }
    m.push((k, v));
    proof {
        assert(pairs_view(m@) =~= mv + seq![(k@, v)]);
        assert(mv.subrange(0, mv.len() as int) + upsert_spec(
            Seq::<(Seq<u8>, u64)>::empty(),
            k@,
            v,
        ) =~= mv + seq![(k@, v)]);
    }
}

/// Strict lexicographic order on byte strings, the order chromosome names
/// are reported in.
pub open spec fn bytes_lt(a: Seq<u8>, b: Seq<u8>) -> bool
    decreases a.len(),
{
    if b.len() == 0 {
        false
    } else if a.len() == 0 {
        true
    } else if a[0] != b[0] {
        a[0] < b[0]
    } else {
        bytes_lt(a.drop_first(), b.drop_first())
    }
}

proof fn lemma_bytes_lt_trans(a: Seq<u8>, b: Seq<u8>, c: Seq<u8>)
    requires
        bytes_lt(a, b),
        bytes_lt(b, c),
    ensures
        bytes_lt(a, c),
    decreases a.len(),
{
    if a.len() > 0 && b.len() > 0 && c.len() > 0 && a[0] == b[0] && b[0] == c[0] {
        lemma_bytes_lt_trans(a.drop_first(), b.drop_first(), c.drop_first());
    }
}

fn bytes_before(a: &Vec<u8>, b: &Vec<u8>) -> (r: bool)
    ensures
        r == bytes_lt(a@, b@),
{
    let mut i: usize = 0;
    proof {
        assert(a@.skip(0) =~= a@);
        assert(b@.skip(0) =~= b@);
    }
    loop
        invariant
            0 <= i <= a@.len(),
            0 <= i <= b@.len(),
            bytes_lt(a@, b@) == bytes_lt(a@.skip(i as int), b@.skip(i as int)),
        decreases a@.len() - i,
    {
        if i >= b.len() {
            proof {
                assert(b@.skip(i as int).len() == 0);
            }
            return false;
        }
        if i >= a.len() {
            proof {
                assert(a@.skip(i as int).len() == 0);
                assert(b@.skip(i as int).len() > 0);
            }
            return true;
        }
        proof {
            assert(a@.skip(i as int)[0] == a@[i as int]);
            assert(b@.skip(i as int)[0] == b@[i as int]);
            assert(a@.skip(i as int).drop_first() =~= a@.skip(i as int + 1));
            assert(b@.skip(i as int).drop_first() =~= b@.skip(i as int + 1));
        }
        if a[i] != b[i] {
            return a[i] < b[i];
        }
        i = i + 1;
    }
}

pub open spec fn sorted_pairs(s: Seq<(Seq<u8>, u64)>) -> bool {
    forall|i: int, j: int| #![trigger s[i], s[j]] 0 <= i < j < s.len() ==> !bytes_lt(s[j].0, s[i].0)
}

proof fn lemma_insert_multiset_pair(s: Seq<(Seq<u8>, u64)>, k: int, x: (Seq<u8>, u64))
    requires
        0 <= k <= s.len(),
    ensures
        s.insert(k, x).to_multiset() == s.to_multiset().insert(x),
{
    broadcast use vstd::seq_lib::group_to_multiset_ensures;

    let left = s.subrange(0, k);
    let right = s.subrange(k, s.len() as int);
    assert(s =~= left + right);
    assert(s.insert(k, x) =~= left + (seq![x] + right));
    vstd::seq_lib::lemma_multiset_commutative(left, right);
    vstd::seq_lib::lemma_multiset_commutative(left, seq![x] + right);
    vstd::seq_lib::lemma_multiset_commutative(seq![x], right);
    assert(seq![x] =~= Seq::<(Seq<u8>, u64)>::empty().push(x));
    assert(Seq::<(Seq<u8>, u64)>::empty().to_multiset() =~= vstd::multiset::Multiset::<
        (Seq<u8>, u64),
    >::empty());
    assert(s.insert(k, x).to_multiset() =~= s.to_multiset().insert(x));
}

/// Orders size entries by chromosome name, byte-lexicographically. The
/// result is a permutation of the input.
pub fn sort_sizes(entries: Vec<(Vec<u8>, u64)>) -> (r: Vec<(Vec<u8>, u64)>)
    ensures
        sorted_pairs(pairs_view(r@)),
        pairs_view(r@).to_multiset() == pairs_view(entries@).to_multiset(),
{
    broadcast use vstd::seq_lib::group_to_multiset_ensures;

    let mut src = entries;
    let mut r: Vec<(Vec<u8>, u64)> = Vec::new();
    let ghost orig = pairs_view(src@);
    proof {
        assert(pairs_view(r@) =~= Seq::<(Seq<u8>, u64)>::empty());
        assert(pairs_view(r@).to_multiset().add(pairs_view(src@).to_multiset()) =~= pairs_view(
            src@,
        ).to_multiset());
    }
    while src.len() > 0
        invariant
            sorted_pairs(pairs_view(r@)),
            pairs_view(r@).to_multiset().add(pairs_view(src@).to_multiset()) == orig.to_multiset(),
        decreases src@.len(),
    {
        let ghost old_src = pairs_view(src@);
        let x = src.remove(0);
        proof {
            assert(pairs_view(src@) =~= old_src.drop_first());
            assert(old_src =~= old_src.drop_first().insert(0, old_src[0]));
            lemma_insert_multiset_pair(old_src.drop_first(), 0, old_src[0]);
            assert(x.0@ == old_src[0].0 && x.1 == old_src[0].1);
        }
        let ghost xv = (x.0@, x.1);
        let mut k: usize = 0;
        while k < r.len() && !bytes_before(&x.0, &r[k].0)
            invariant
                0 <= k <= r@.len(),
                xv == (x.0@, x.1),
                sorted_pairs(pairs_view(r@)),
                forall|j: int| 0 <= j < k ==> !bytes_lt(xv.0, (#[trigger] pairs_view(r@)[j]).0),
            decreases r@.len() - k,
        {
            proof {
                assert(pairs_view(r@)[k as int].0 == r@[k as int].0@);
            }
            k = k + 1;
        }
        let ghost old_r = pairs_view(r@);
        proof {
            if k < r@.len() {
                assert(bytes_lt(xv.0, old_r[k as int].0));
            }
        }
        r.insert(k, x);
        proof {
            assert(pairs_view(r@) =~= old_r.insert(k as int, xv));
            lemma_insert_multiset_pair(old_r, k as int, xv);
            old_r.insert_ensures(k as int, xv);
            let nr = pairs_view(r@);
            assert forall|p: int, q: int| #![trigger nr[p], nr[q]] 0 <= p < q < nr.len() implies
                !bytes_lt(nr[q].0, nr[p].0) by {
                if q < k {
                    assert(nr[p] == old_r[p] && nr[q] == old_r[q]);
                } else if q == k {
                    if p < k {
                        assert(nr[p] == old_r[p]);
                    }
                } else {
                    assert(nr[q] == old_r[q - 1]);
                    if p < k {
                        assert(nr[p] == old_r[p]);
                        assert(!bytes_lt(old_r[q - 1].0, old_r[p].0));
                    } else if p == k {
                        assert(k < old_r.len());
                        assert(bytes_lt(xv.0, old_r[k as int].0));
                        if bytes_lt(old_r[q - 1].0, xv.0) {
                            lemma_bytes_lt_trans(old_r[q - 1].0, xv.0, old_r[k as int].0);
                            if (k as int) < q - 1 {
                                assert(!bytes_lt(old_r[q - 1].0, old_r[k as int].0));
                            } else {
                                lemma_bytes_lt_irrefl(old_r[k as int].0);
                            }
                            assert(false);
                        }
                    } else {
                        assert(nr[p] == old_r[p - 1]);
                        assert(!bytes_lt(old_r[q - 1].0, old_r[p - 1].0));
                    }
                }
            }
        }
    }
    proof {
        assert(pairs_view(src@).to_multiset() =~= vstd::multiset::Multiset::<
            (Seq<u8>, u64),
        >::empty());
        assert(pairs_view(r@).to_multiset() =~= orig.to_multiset());
    }
    r
}

proof fn lemma_bytes_lt_irrefl(a: Seq<u8>)
    ensures
        !bytes_lt(a, a),
    decreases a.len(),
{
    if a.len() > 0 {
        lemma_bytes_lt_irrefl(a.drop_first());
    }
}

/// Reads a whole sizes file: each line's chromosome (remapped) and size,
/// later lines overriding earlier ones, the entries ordered by chromosome
/// name.
pub fn read_sizes(lines: &Vec<Vec<u8>>, chrmap: &Vec<(Vec<u8>, Vec<u8>)>) -> (r: Vec<
    (Vec<u8>, u64),
>)
    ensures
        sorted_pairs(pairs_view(r@)),
        pairs_view(r@).to_multiset() == sizes_map_spec(
            lines_view(lines@),
            chrmap_view(chrmap@),
        ).to_multiset(),
{
    let ghost lv = lines_view(lines@);
    let mut m: Vec<(Vec<u8>, u64)> = Vec::new();
    let mut i: usize = 0;
    proof {
        assert(lv.subrange(0, 0) =~= Seq::<Seq<u8>>::empty());
        assert(pairs_view(m@) =~= sizes_map_spec(lv.subrange(0, 0), chrmap_view(chrmap@)));
    }
    while i < lines.len()
        invariant
            0 <= i <= lines@.len(),
            lv == lines_view(lines@),
            pairs_view(m@) == sizes_map_spec(lv.subrange(0, i as int), chrmap_view(chrmap@)),
        decreases lines@.len() - i,
    {
        proof {
            assert(lv.subrange(0, i as int + 1).drop_last() =~= lv.subrange(0, i as int));
            assert(lv.subrange(0, i as int + 1).last() == lv[i as int]);
        }
        match parse_size_line(&lines[i], chrmap) {
            Some(p) => {
                upsert(&mut m, p.0, p.1);
            },
            None => {},
        }
        i = i + 1;
    }
    proof {
        assert(lv.subrange(0, lv.len() as int) =~= lv);
    }
    sort_sizes(m)
}

} // verus!
