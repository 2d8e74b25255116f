use numatop::proc_info::{check_cpu_affinity, parse_cpu_list};
use numatop::sys_numa_info::parse_cpulist;
use numatop::text::{parse_u32, split_first, split_words, trim_slice};

/// A small generator of pseudo-random numbers, the same on every run.
struct Lcg(u64);

impl Lcg {
    fn next(&mut self) -> u64 {
        self.0 = self.0.wrapping_mul(6364136223846793005).wrapping_add(1442695040888963407);
        self.0 >> 33
    }

    fn text(&mut self, alphabet: &[char], max_len: u64) -> String {
        let len = self.next() % (max_len + 1);
        (0..len).map(|_| alphabet[(self.next() % alphabet.len() as u64) as usize]).collect()
    }
}

const ALPHABET: [char; 16] =
    ['0', '1', '2', '3', '9', ',', '-', ' ', '\t', '\n', '+', 'x', ':', '\u{a0}', '\r', '7'];

fn chars(s: &str) -> Vec<char> {
    s.chars().collect()
}

fn text(s: &[char]) -> String {
    s.iter().collect()
}

#[test]
fn trimming_agrees_with_std() {
    let mut rng = Lcg(1);
    for _ in 0..20000 {
        let s = rng.text(&ALPHABET, 12);
        assert_eq!(text(trim_slice(&chars(&s))), s.trim(), "{:?}", s);
    }
}

#[test]
fn words_agree_with_std() {
    let mut rng = Lcg(2);
    for _ in 0..20000 {
        let s = rng.text(&ALPHABET, 16);
        let ours: Vec<String> = split_words(&chars(&s)).into_iter().map(text).collect();
        let theirs: Vec<&str> = s.split_whitespace().collect();
        assert_eq!(ours, theirs, "{:?}", s);
    }
}

#[test]
fn splitting_agrees_with_std() {
    let mut rng = Lcg(3);
    for _ in 0..20000 {
        let s = rng.text(&ALPHABET, 16);
        let all = chars(&s);
        let mut ours: Vec<String> = Vec::new();
        let mut rest: &[char] = &all;
        loop {
            let (head, after) = split_first(rest, ',');
            ours.push(text(head));
            match after {
                Some(next) => rest = next,
                None => break,
            }
        }
        let theirs: Vec<&str> = s.split(',').collect();
        assert_eq!(ours, theirs, "{:?}", s);
    }
}

#[test]
fn numbers_agree_with_std() {
    let mut rng = Lcg(4);
    let digits = ['0', '1', '4', '9', '+', '-', ' ', '2', '5', '6'];
    for _ in 0..20000 {
        let s = rng.text(&digits, 12);
        assert_eq!(parse_u32(&chars(&s)), s.parse::<u32>().ok(), "{:?}", s);
    }
}

/// The cores of a list, read with std's own functions.
fn cores_by_std(list: &str) -> Vec<u32> {
    let mut cores = Vec::new();
    for part in list.split(',') {
        let part = part.trim();
        let pieces: Vec<&str> = part.split('-').collect();
        if pieces.len() == 1 {
            if let Ok(n) = part.parse::<u32>() {
                cores.push(n);
            }
        } else if pieces.len() == 2 {
            let first = pieces[0].trim().parse::<u32>();
            let last = pieces[1].trim().parse::<u32>();
            if let (Ok(a), Ok(b)) = (first, last) {
                cores.extend(a..=b);
            }
        }
    }
    cores.sort();
    cores.dedup();
    cores
}

#[test]
fn core_lists_agree_with_std() {
    let mut rng = Lcg(5);
    let alphabet = ['0', '1', '2', '3', '5', ',', ',', '-', ' ', 'x', '+'];
    for _ in 0..20000 {
        let s = rng.text(&alphabet, 14);
        let expected = cores_by_std(&s);
        if expected.len() > 100 {
            continue;
        }
        assert_eq!(parse_cpulist(&s), expected, "{:?}", s);
        for cpu in [0u32, 1, 2, 3, 5, 11, 12, 23, 35] {
            assert_eq!(parse_cpu_list(&s, cpu), expected.contains(&cpu), "{:?} {}", s, cpu);
        }
    }
}

/// Whether a status listing allows a core, read with std's own functions.
fn allowed_by_std(status: &str, cpu: u32) -> bool {
    for line in status.lines() {
        if line.starts_with("Cpus_allowed_list:") {
            let list = line.split(':').nth(1).unwrap_or("").trim();
            return cores_by_std(list).contains(&cpu);
        }
    }
    true
}

#[test]
fn status_listings_agree_with_std() {
    let mut rng = Lcg(6);
    let alphabet = ['0', '1', '3', ',', '-', ' ', '\t', ':', '\r'];
    for _ in 0..5000 {
        let mut status = String::new();
        for _ in 0..(rng.next() % 4) {
            match rng.next() % 3 {
                0 => status.push_str("Cpus_allowed_list:"),
                1 => status.push_str("Name:"),
                _ => status.push_str(" Cpus_allowed_list:"),
            }
            status.push_str(&rng.text(&alphabet, 8));
            status.push_str(if rng.next() % 2 == 0 { "\n" } else { "\r\n" });
        }
        for cpu in [0u32, 1, 3, 10, 13] {
            assert_eq!(
                check_cpu_affinity(&status, cpu),
                allowed_by_std(&status, cpu),
                "{:?} {}",
                status,
                cpu
            );
        }
    }
}
