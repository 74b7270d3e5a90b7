use vector_search::registry::BaseDeDonnees;
use vector_search::score::Score;

fn cosine(a: &[f32], b: &[f32]) -> Score {
    let dot: f32 = a.iter().zip(b.iter()).map(|(x, y)| x * y).sum();
    let norm_a: f32 = a.iter().map(|x| x * x).sum::<f32>().sqrt();
    let norm_b: f32 = b.iter().map(|y| y * y).sum::<f32>().sqrt();
    let value: f32 = if norm_a == 0.0 || norm_b == 0.0 { 0.0 } else { dot / (norm_a * norm_b) };
    Score::from_bits(value.to_bits())
}

#[test]
fn new_database_has_no_collection() {
    let database: BaseDeDonnees<f32> = BaseDeDonnees::new();
    assert!(database.get("ICC").is_none());
    assert!(database.search("ICC", &[1.0], 1, cosine).is_none());
}

#[test]
fn add_makes_an_empty_collection() {
    let mut database: BaseDeDonnees<f32> = BaseDeDonnees::new();
    database.add("ICC".to_string());
    let collection = database.get("ICC").unwrap();
    assert_eq!(collection.read(&1), None);
    assert!(database.get("IA").is_none());
    assert_eq!(database.search("ICC", &[1.0], 3, cosine), Some(vec![]));
}

#[test]
fn get_mut_changes_the_collection_in_place() {
    let mut database: BaseDeDonnees<f32> = BaseDeDonnees::new();
    database.add("ICC".to_string());
    database.add("IA".to_string());
    database.get_mut("ICC").unwrap().upsert(1, vec![12.0, 72.0, 63.0]);
    database.get_mut("IA").unwrap().upsert(2, vec![14.0, 30.0, 60.0]);
    assert_eq!(database.get("ICC").unwrap().read(&1), Some(&vec![12.0f32, 72.0, 63.0]));
    assert_eq!(database.get("ICC").unwrap().read(&2), None);
    assert_eq!(database.get("IA").unwrap().read(&2), Some(&vec![14.0f32, 30.0, 60.0]));
    assert_eq!(database.get("IA").unwrap().read(&1), None);
}

#[test]
fn get_mut_of_an_unknown_name_is_absent() {
    let mut database: BaseDeDonnees<f32> = BaseDeDonnees::new();
    database.add("ICC".to_string());
    assert!(database.get_mut("IA").is_none());
    assert!(database.get_mut("").is_none());
}

#[test]
fn add_of_a_known_name_empties_the_collection() {
    let mut database: BaseDeDonnees<f32> = BaseDeDonnees::new();
    database.add("ICC".to_string());
    database.add("IA".to_string());
    database.get_mut("ICC").unwrap().upsert(1, vec![1.0]);
    database.get_mut("IA").unwrap().upsert(2, vec![2.0]);
    database.add("ICC".to_string());
    assert_eq!(database.get("ICC").unwrap().read(&1), None);
    assert_eq!(database.get("IA").unwrap().read(&2), Some(&vec![2.0f32]));
}

#[test]
fn database_search_forwards_to_the_named_collection() {
    let mut database: BaseDeDonnees<f32> = BaseDeDonnees::new();
    database.add("ICC".to_string());
    database.add("IA".to_string());
    if let Some(collection) = database.get_mut("ICC") {
        collection.upsert(1, vec![12.0, 72.0, 63.0]);
        collection.upsert(2, vec![24.0, 45.0, 36.0]);
    }
    if let Some(collection) = database.get_mut("IA") {
        collection.upsert(3, vec![14.0, 30.0, 60.0]);
        collection.upsert(4, vec![10.0, 12.0, 100.0]);
    }
    let request = [41.0f32, 51.0, 31.0];
    let icc = database.search("ICC", &request, 3, cosine).unwrap();
    assert_eq!(icc.iter().map(|hit| hit.id).collect::<Vec<u128>>(), vec![2, 1]);
    let ia = database.search("IA", &request, 3, cosine).unwrap();
    assert_eq!(ia.iter().map(|hit| hit.id).collect::<Vec<u128>>(), vec![3, 4]);
    let best = database.search("IA", &request, 1, cosine).unwrap();
    assert_eq!(best.len(), 1);
    assert_eq!(best[0].id, 3);
    assert!(database.search("absent", &request, 3, cosine).is_none());
}
