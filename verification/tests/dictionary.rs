use phone_encoder::dictionary::{load_dict, Dictionary};

fn owned(words: &[&str]) -> Vec<String> {
    words.iter().map(|w| w.to_string()).collect()
}

#[test]
fn new_dictionary_is_empty() {
    let dict = Dictionary::new();
    assert_eq!(dict.get(b"4824"), None);
    assert_eq!(dict.get(b""), None);
}

#[test]
fn words_are_filed_under_their_keys() {
    let dict = load_dict(owned(&["Tor", "Torf", "so"]));
    assert_eq!(dict.get(b"482"), Some(&owned(&["Tor"])));
    assert_eq!(dict.get(b"4824"), Some(&owned(&["Torf"])));
    assert_eq!(dict.get(b"38"), Some(&owned(&["so"])));
    assert_eq!(dict.get(b"48"), None);
    assert_eq!(dict.get(b"48244"), None);
}

#[test]
fn bucket_keeps_input_order() {
    let dict = load_dict(owned(&["fort", "mir", "Torf", "Mix"]));
    assert_eq!(dict.get(b"4824"), Some(&owned(&["fort", "Torf"])));
    assert_eq!(dict.get(b"562"), Some(&owned(&["mir", "Mix"])));
    let turned = load_dict(owned(&["Torf", "Mix", "fort", "mir"]));
    assert_eq!(turned.get(b"4824"), Some(&owned(&["Torf", "fort"])));
    assert_eq!(turned.get(b"562"), Some(&owned(&["Mix", "mir"])));
}

#[test]
fn duplicate_words_are_kept() {
    let dict = load_dict(owned(&["so", "an", "so", "so"]));
    assert_eq!(dict.get(b"38"), Some(&owned(&["so", "so", "so"])));
    assert_eq!(dict.get(b"51"), Some(&owned(&["an"])));
}

#[test]
fn words_are_stored_verbatim() {
    let dict = load_dict(owned(&["bo\"s", "Bo\"", "o'd-", "  so "]));
    assert_eq!(dict.get(b"783"), Some(&owned(&["bo\"s"])));
    assert_eq!(dict.get(b"78"), Some(&owned(&["Bo\""])));
    assert_eq!(dict.get(b"83"), Some(&owned(&["o'd-"])));
    assert_eq!(dict.get(b"38"), Some(&owned(&["  so "])));
}

#[test]
fn words_without_letters_share_the_empty_key() {
    let dict = load_dict(owned(&["", "--", "so", "12"]));
    assert_eq!(dict.get(b""), Some(&owned(&["", "--", "12"])));
    assert_eq!(dict.get(b"38"), Some(&owned(&["so"])));
}

#[test]
fn empty_word_list_gives_empty_dictionary() {
    let dict = load_dict(Vec::new());
    assert_eq!(dict.get(b""), None);
    assert_eq!(dict.get(b"38"), None);
}

#[test]
fn insert_appends_to_the_bucket() {
    let mut dict = Dictionary::new();
    dict.insert("mir".to_string());
    assert_eq!(dict.get(b"562"), Some(&owned(&["mir"])));
    dict.insert("Tor".to_string());
    dict.insert("Mix".to_string());
    assert_eq!(dict.get(b"562"), Some(&owned(&["mir", "Mix"])));
    assert_eq!(dict.get(b"482"), Some(&owned(&["Tor"])));
}

#[test]
fn insert_under_files_a_word_under_the_given_key() {
    let mut dict = Dictionary::new();
    dict.insert_under(b"8733".to_vec(), "tree".to_string());
    dict.insert_under(b"3733".to_vec(), "free".to_string());
    dict.insert_under(b"8733".to_vec(), "puss".to_string());
    assert_eq!(dict.get(b"8733"), Some(&owned(&["tree", "puss"])));
    assert_eq!(dict.get(b"3733"), Some(&owned(&["free"])));
    assert_eq!(dict.get(b"4200"), None);
}

#[test]
fn many_keys_are_all_found_again() {
    let mut words = Vec::new();
    for a in "ejrdfacblg".chars() {
        for b in "ejrdfacblg".chars() {
            for c in "ejrdfacblg".chars() {
                words.push(format!("{}{}{}", a, b, c));
            }
        }
    }
    let dict = load_dict(words);
    for n in 0..1000u32 {
        let key = format!("{:03}", n);
        let digits: Vec<char> = key.chars().collect();
        let letter = |d: char| "ejrdfacblg".chars().nth(d.to_digit(10).unwrap() as usize).unwrap();
        let word: String = digits.iter().map(|d| letter(*d)).collect();
        assert_eq!(dict.get(key.as_bytes()), Some(&vec![word]));
    }
    assert_eq!(dict.get(b"0000"), None);
}
