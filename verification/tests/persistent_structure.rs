use lib::persistent::{PersistentStructure, RemoveError};

fn listing(s: &PersistentStructure, v: u32) -> Vec<(i32, u32, char)> {
    s.inorder_listing(v)
}

#[test]
fn three_inserts_rotate_at_the_root() {
    let mut s = PersistentStructure::new();
    s.insert(10);
    s.insert(20);
    s.insert(30);
    assert_eq!(listing(&s, 0), vec![]);
    assert_eq!(listing(&s, 1), vec![(10, 0, 'N')]);
    assert_eq!(listing(&s, 2), vec![(10, 0, 'N'), (20, 1, 'R')]);
    assert_eq!(listing(&s, 3), vec![(10, 1, 'R'), (20, 0, 'N'), (30, 1, 'R')]);
    assert_eq!(listing(&s, 4), vec![]);
    assert_eq!(s.sucessor(0, 3), Some(10));
    assert_eq!(s.sucessor(15, 3), Some(20));
    assert_eq!(s.sucessor(25, 3), Some(30));
    assert_eq!(s.sucessor(30, 3), None);
    assert_eq!(s.sucessor(15, 1), None);
}

#[test]
fn ascending_inserts_copy_full_nodes() {
    let mut s = PersistentStructure::new();
    s.insert(1);
    s.insert(2);
    s.insert(3);
    s.insert(4);
    s.insert(5);
    s.insert(6);
    s.insert(7);
    s.insert(8);
    s.insert(9);
    s.insert(10);
    s.insert(11);
    s.insert(12);
    s.insert(13);
    s.insert(14);
    s.insert(15);
    s.insert(16);
    s.insert(17);
    s.insert(18);
    s.insert(19);
    s.insert(20);
    s.insert(21);
    s.insert(22);
    s.insert(23);
    s.insert(24);
    s.insert(25);
    s.insert(26);
    s.insert(27);
    s.insert(28);
    s.insert(29);
    s.insert(30);
    assert_eq!(listing(&s, 0), vec![]);
    assert_eq!(listing(&s, 1), vec![(1, 0, 'N')]);
    assert_eq!(listing(&s, 2), vec![(1, 0, 'N'), (2, 1, 'R')]);
    assert_eq!(listing(&s, 3), vec![(1, 1, 'R'), (2, 0, 'N'), (3, 1, 'R')]);
    assert_eq!(listing(&s, 4), vec![(1, 1, 'N'), (2, 0, 'N'), (3, 1, 'N'), (4, 2, 'R')]);
    assert_eq!(listing(&s, 5), vec![(1, 1, 'N'), (2, 0, 'N'), (3, 2, 'R'), (4, 1, 'N'), (5, 2, 'R')]);
    assert_eq!(listing(&s, 6), vec![(1, 1, 'N'), (2, 0, 'N'), (3, 2, 'N'), (4, 1, 'R'), (5, 2, 'N'), (6, 3, 'R')]);
    assert_eq!(listing(&s, 7), vec![(1, 1, 'N'), (2, 0, 'N'), (3, 2, 'N'), (4, 1, 'R'), (5, 3, 'R'), (6, 2, 'N'), (7, 3, 'R')]);
    assert_eq!(listing(&s, 8), vec![(1, 2, 'N'), (2, 1, 'R'), (3, 2, 'N'), (4, 0, 'N'), (5, 2, 'N'), (6, 1, 'R'), (7, 2, 'N'), (8, 3, 'R')]);
    assert_eq!(listing(&s, 9), vec![(1, 2, 'N'), (2, 1, 'R'), (3, 2, 'N'), (4, 0, 'N'), (5, 2, 'N'), (6, 1, 'R'), (7, 3, 'R'), (8, 2, 'N'), (9, 3, 'R')]);
    assert_eq!(listing(&s, 10), vec![(1, 2, 'N'), (2, 1, 'N'), (3, 2, 'N'), (4, 0, 'N'), (5, 2, 'N'), (6, 1, 'N'), (7, 3, 'N'), (8, 2, 'R'), (9, 3, 'N'), (10, 4, 'R')]);
    assert_eq!(listing(&s, 11), vec![(1, 2, 'N'), (2, 1, 'N'), (3, 2, 'N'), (4, 0, 'N'), (5, 2, 'N'), (6, 1, 'N'), (7, 3, 'N'), (8, 2, 'R'), (9, 4, 'R'), (10, 3, 'N'), (11, 4, 'R')]);
    assert_eq!(listing(&s, 12), vec![(1, 2, 'N'), (2, 1, 'N'), (3, 2, 'N'), (4, 0, 'N'), (5, 3, 'N'), (6, 2, 'R'), (7, 3, 'N'), (8, 1, 'N'), (9, 3, 'N'), (10, 2, 'R'), (11, 3, 'N'), (12, 4, 'R')]);
    assert_eq!(listing(&s, 13), vec![(1, 2, 'N'), (2, 1, 'N'), (3, 2, 'N'), (4, 0, 'N'), (5, 3, 'N'), (6, 2, 'R'), (7, 3, 'N'), (8, 1, 'N'), (9, 3, 'N'), (10, 2, 'R'), (11, 4, 'R'), (12, 3, 'N'), (13, 4, 'R')]);
    assert_eq!(listing(&s, 14), vec![(1, 2, 'N'), (2, 1, 'N'), (3, 2, 'N'), (4, 0, 'N'), (5, 3, 'N'), (6, 2, 'N'), (7, 3, 'N'), (8, 1, 'R'), (9, 3, 'N'), (10, 2, 'N'), (11, 4, 'N'), (12, 3, 'R'), (13, 4, 'N'), (14, 5, 'R')]);
    assert_eq!(listing(&s, 15), vec![(1, 2, 'N'), (2, 1, 'N'), (3, 2, 'N'), (4, 0, 'N'), (5, 3, 'N'), (6, 2, 'N'), (7, 3, 'N'), (8, 1, 'R'), (9, 3, 'N'), (10, 2, 'N'), (11, 4, 'N'), (12, 3, 'R'), (13, 5, 'R'), (14, 4, 'N'), (15, 5, 'R')]);
    assert_eq!(listing(&s, 16), vec![(1, 2, 'N'), (2, 1, 'N'), (3, 2, 'N'), (4, 0, 'N'), (5, 3, 'N'), (6, 2, 'N'), (7, 3, 'N'), (8, 1, 'R'), (9, 4, 'N'), (10, 3, 'R'), (11, 4, 'N'), (12, 2, 'N'), (13, 4, 'N'), (14, 3, 'R'), (15, 4, 'N'), (16, 5, 'R')]);
    assert_eq!(listing(&s, 17), vec![(1, 2, 'N'), (2, 1, 'N'), (3, 2, 'N'), (4, 0, 'N'), (5, 3, 'N'), (6, 2, 'N'), (7, 3, 'N'), (8, 1, 'R'), (9, 4, 'N'), (10, 3, 'R'), (11, 4, 'N'), (12, 2, 'N'), (13, 4, 'N'), (14, 3, 'R'), (15, 5, 'R'), (16, 4, 'N'), (17, 5, 'R')]);
    assert_eq!(listing(&s, 18), vec![(1, 3, 'N'), (2, 2, 'N'), (3, 3, 'N'), (4, 1, 'R'), (5, 3, 'N'), (6, 2, 'N'), (7, 3, 'N'), (8, 0, 'N'), (9, 3, 'N'), (10, 2, 'N'), (11, 3, 'N'), (12, 1, 'R'), (13, 3, 'N'), (14, 2, 'N'), (15, 4, 'N'), (16, 3, 'R'), (17, 4, 'N'), (18, 5, 'R')]);
    assert_eq!(listing(&s, 19), vec![(1, 3, 'N'), (2, 2, 'N'), (3, 3, 'N'), (4, 1, 'R'), (5, 3, 'N'), (6, 2, 'N'), (7, 3, 'N'), (8, 0, 'N'), (9, 3, 'N'), (10, 2, 'N'), (11, 3, 'N'), (12, 1, 'R'), (13, 3, 'N'), (14, 2, 'N'), (15, 4, 'N'), (16, 3, 'R'), (17, 5, 'R'), (18, 4, 'N'), (19, 5, 'R')]);
    assert_eq!(listing(&s, 20), vec![(1, 3, 'N'), (2, 2, 'N'), (3, 3, 'N'), (4, 1, 'R'), (5, 3, 'N'), (6, 2, 'N'), (7, 3, 'N'), (8, 0, 'N'), (9, 3, 'N'), (10, 2, 'N'), (11, 3, 'N'), (12, 1, 'R'), (13, 4, 'N'), (14, 3, 'R'), (15, 4, 'N'), (16, 2, 'N'), (17, 4, 'N'), (18, 3, 'R'), (19, 4, 'N'), (20, 5, 'R')]);
    assert_eq!(listing(&s, 21), vec![(1, 3, 'N'), (2, 2, 'N'), (3, 3, 'N'), (4, 1, 'R'), (5, 3, 'N'), (6, 2, 'N'), (7, 3, 'N'), (8, 0, 'N'), (9, 3, 'N'), (10, 2, 'N'), (11, 3, 'N'), (12, 1, 'R'), (13, 4, 'N'), (14, 3, 'R'), (15, 4, 'N'), (16, 2, 'N'), (17, 4, 'N'), (18, 3, 'R'), (19, 5, 'R'), (20, 4, 'N'), (21, 5, 'R')]);
    assert_eq!(listing(&s, 22), vec![(1, 3, 'N'), (2, 2, 'N'), (3, 3, 'N'), (4, 1, 'N'), (5, 3, 'N'), (6, 2, 'N'), (7, 3, 'N'), (8, 0, 'N'), (9, 3, 'N'), (10, 2, 'N'), (11, 3, 'N'), (12, 1, 'N'), (13, 4, 'N'), (14, 3, 'N'), (15, 4, 'N'), (16, 2, 'R'), (17, 4, 'N'), (18, 3, 'N'), (19, 5, 'N'), (20, 4, 'R'), (21, 5, 'N'), (22, 6, 'R')]);
    assert_eq!(listing(&s, 23), vec![(1, 3, 'N'), (2, 2, 'N'), (3, 3, 'N'), (4, 1, 'N'), (5, 3, 'N'), (6, 2, 'N'), (7, 3, 'N'), (8, 0, 'N'), (9, 3, 'N'), (10, 2, 'N'), (11, 3, 'N'), (12, 1, 'N'), (13, 4, 'N'), (14, 3, 'N'), (15, 4, 'N'), (16, 2, 'R'), (17, 4, 'N'), (18, 3, 'N'), (19, 5, 'N'), (20, 4, 'R'), (21, 6, 'R'), (22, 5, 'N'), (23, 6, 'R')]);
    assert_eq!(listing(&s, 24), vec![(1, 3, 'N'), (2, 2, 'N'), (3, 3, 'N'), (4, 1, 'N'), (5, 3, 'N'), (6, 2, 'N'), (7, 3, 'N'), (8, 0, 'N'), (9, 3, 'N'), (10, 2, 'N'), (11, 3, 'N'), (12, 1, 'N'), (13, 4, 'N'), (14, 3, 'N'), (15, 4, 'N'), (16, 2, 'R'), (17, 5, 'N'), (18, 4, 'R'), (19, 5, 'N'), (20, 3, 'N'), (21, 5, 'N'), (22, 4, 'R'), (23, 5, 'N'), (24, 6, 'R')]);
    assert_eq!(listing(&s, 25), vec![(1, 3, 'N'), (2, 2, 'N'), (3, 3, 'N'), (4, 1, 'N'), (5, 3, 'N'), (6, 2, 'N'), (7, 3, 'N'), (8, 0, 'N'), (9, 3, 'N'), (10, 2, 'N'), (11, 3, 'N'), (12, 1, 'N'), (13, 4, 'N'), (14, 3, 'N'), (15, 4, 'N'), (16, 2, 'R'), (17, 5, 'N'), (18, 4, 'R'), (19, 5, 'N'), (20, 3, 'N'), (21, 5, 'N'), (22, 4, 'R'), (23, 6, 'R'), (24, 5, 'N'), (25, 6, 'R')]);
    assert_eq!(listing(&s, 26), vec![(1, 3, 'N'), (2, 2, 'N'), (3, 3, 'N'), (4, 1, 'N'), (5, 3, 'N'), (6, 2, 'N'), (7, 3, 'N'), (8, 0, 'N'), (9, 4, 'N'), (10, 3, 'N'), (11, 4, 'N'), (12, 2, 'R'), (13, 4, 'N'), (14, 3, 'N'), (15, 4, 'N'), (16, 1, 'N'), (17, 4, 'N'), (18, 3, 'N'), (19, 4, 'N'), (20, 2, 'R'), (21, 4, 'N'), (22, 3, 'N'), (23, 5, 'N'), (24, 4, 'R'), (25, 5, 'N'), (26, 6, 'R')]);
    assert_eq!(listing(&s, 27), vec![(1, 3, 'N'), (2, 2, 'N'), (3, 3, 'N'), (4, 1, 'N'), (5, 3, 'N'), (6, 2, 'N'), (7, 3, 'N'), (8, 0, 'N'), (9, 4, 'N'), (10, 3, 'N'), (11, 4, 'N'), (12, 2, 'R'), (13, 4, 'N'), (14, 3, 'N'), (15, 4, 'N'), (16, 1, 'N'), (17, 4, 'N'), (18, 3, 'N'), (19, 4, 'N'), (20, 2, 'R'), (21, 4, 'N'), (22, 3, 'N'), (23, 5, 'N'), (24, 4, 'R'), (25, 6, 'R'), (26, 5, 'N'), (27, 6, 'R')]);
    assert_eq!(listing(&s, 28), vec![(1, 3, 'N'), (2, 2, 'N'), (3, 3, 'N'), (4, 1, 'N'), (5, 3, 'N'), (6, 2, 'N'), (7, 3, 'N'), (8, 0, 'N'), (9, 4, 'N'), (10, 3, 'N'), (11, 4, 'N'), (12, 2, 'R'), (13, 4, 'N'), (14, 3, 'N'), (15, 4, 'N'), (16, 1, 'N'), (17, 4, 'N'), (18, 3, 'N'), (19, 4, 'N'), (20, 2, 'R'), (21, 5, 'N'), (22, 4, 'R'), (23, 5, 'N'), (24, 3, 'N'), (25, 5, 'N'), (26, 4, 'R'), (27, 5, 'N'), (28, 6, 'R')]);
    assert_eq!(listing(&s, 29), vec![(1, 3, 'N'), (2, 2, 'N'), (3, 3, 'N'), (4, 1, 'N'), (5, 3, 'N'), (6, 2, 'N'), (7, 3, 'N'), (8, 0, 'N'), (9, 4, 'N'), (10, 3, 'N'), (11, 4, 'N'), (12, 2, 'R'), (13, 4, 'N'), (14, 3, 'N'), (15, 4, 'N'), (16, 1, 'N'), (17, 4, 'N'), (18, 3, 'N'), (19, 4, 'N'), (20, 2, 'R'), (21, 5, 'N'), (22, 4, 'R'), (23, 5, 'N'), (24, 3, 'N'), (25, 5, 'N'), (26, 4, 'R'), (27, 6, 'R'), (28, 5, 'N'), (29, 6, 'R')]);
    assert_eq!(listing(&s, 30), vec![(1, 3, 'N'), (2, 2, 'N'), (3, 3, 'N'), (4, 1, 'N'), (5, 3, 'N'), (6, 2, 'N'), (7, 3, 'N'), (8, 0, 'N'), (9, 4, 'N'), (10, 3, 'N'), (11, 4, 'N'), (12, 2, 'N'), (13, 4, 'N'), (14, 3, 'N'), (15, 4, 'N'), (16, 1, 'R'), (17, 4, 'N'), (18, 3, 'N'), (19, 4, 'N'), (20, 2, 'N'), (21, 5, 'N'), (22, 4, 'N'), (23, 5, 'N'), (24, 3, 'R'), (25, 5, 'N'), (26, 4, 'N'), (27, 6, 'N'), (28, 5, 'R'), (29, 6, 'N'), (30, 7, 'R')]);
    assert_eq!(listing(&s, 31), vec![]);
    assert_eq!(s.sucessor(0, 30), Some(1));
    assert_eq!(s.sucessor(15, 30), Some(16));
    assert_eq!(s.sucessor(25, 30), Some(26));
    assert_eq!(s.sucessor(30, 30), None);
    assert_eq!(s.sucessor(15, 10), None);
    assert_eq!(s.sucessor(29, 29), None);
}

#[test]
fn descending_inserts() {
    let mut s = PersistentStructure::new();
    s.insert(40);
    s.insert(37);
    s.insert(34);
    s.insert(31);
    s.insert(28);
    s.insert(25);
    s.insert(22);
    s.insert(19);
    s.insert(16);
    s.insert(13);
    s.insert(10);
    s.insert(7);
    s.insert(4);
    s.insert(1);
    assert_eq!(listing(&s, 0), vec![]);
    assert_eq!(listing(&s, 1), vec![(40, 0, 'N')]);
    assert_eq!(listing(&s, 2), vec![(37, 1, 'R'), (40, 0, 'N')]);
    assert_eq!(listing(&s, 3), vec![(34, 1, 'R'), (37, 0, 'N'), (40, 1, 'R')]);
    assert_eq!(listing(&s, 4), vec![(31, 2, 'R'), (34, 1, 'N'), (37, 0, 'N'), (40, 1, 'N')]);
    assert_eq!(listing(&s, 5), vec![(28, 2, 'R'), (31, 1, 'N'), (34, 2, 'R'), (37, 0, 'N'), (40, 1, 'N')]);
    assert_eq!(listing(&s, 6), vec![(25, 3, 'R'), (28, 2, 'N'), (31, 1, 'R'), (34, 2, 'N'), (37, 0, 'N'), (40, 1, 'N')]);
    assert_eq!(listing(&s, 7), vec![(22, 3, 'R'), (25, 2, 'N'), (28, 3, 'R'), (31, 1, 'R'), (34, 2, 'N'), (37, 0, 'N'), (40, 1, 'N')]);
    assert_eq!(listing(&s, 8), vec![(19, 3, 'R'), (22, 2, 'N'), (25, 1, 'R'), (28, 2, 'N'), (31, 0, 'N'), (34, 2, 'N'), (37, 1, 'R'), (40, 2, 'N')]);
    assert_eq!(listing(&s, 9), vec![(16, 3, 'R'), (19, 2, 'N'), (22, 3, 'R'), (25, 1, 'R'), (28, 2, 'N'), (31, 0, 'N'), (34, 2, 'N'), (37, 1, 'R'), (40, 2, 'N')]);
    assert_eq!(listing(&s, 10), vec![(13, 4, 'R'), (16, 3, 'N'), (19, 2, 'R'), (22, 3, 'N'), (25, 1, 'N'), (28, 2, 'N'), (31, 0, 'N'), (34, 2, 'N'), (37, 1, 'N'), (40, 2, 'N')]);
    assert_eq!(listing(&s, 11), vec![(10, 4, 'R'), (13, 3, 'N'), (16, 4, 'R'), (19, 2, 'R'), (22, 3, 'N'), (25, 1, 'N'), (28, 2, 'N'), (31, 0, 'N'), (34, 2, 'N'), (37, 1, 'N'), (40, 2, 'N')]);
    assert_eq!(listing(&s, 12), vec![(7, 4, 'R'), (10, 3, 'N'), (13, 2, 'R'), (16, 3, 'N'), (19, 1, 'N'), (22, 3, 'N'), (25, 2, 'R'), (28, 3, 'N'), (31, 0, 'N'), (34, 2, 'N'), (37, 1, 'N'), (40, 2, 'N')]);
    assert_eq!(listing(&s, 13), vec![(4, 4, 'R'), (7, 3, 'N'), (10, 4, 'R'), (13, 2, 'R'), (16, 3, 'N'), (19, 1, 'N'), (22, 3, 'N'), (25, 2, 'R'), (28, 3, 'N'), (31, 0, 'N'), (34, 2, 'N'), (37, 1, 'N'), (40, 2, 'N')]);
    assert_eq!(listing(&s, 14), vec![(1, 5, 'R'), (4, 4, 'N'), (7, 3, 'R'), (10, 4, 'N'), (13, 2, 'N'), (16, 3, 'N'), (19, 1, 'R'), (22, 3, 'N'), (25, 2, 'N'), (28, 3, 'N'), (31, 0, 'N'), (34, 2, 'N'), (37, 1, 'N'), (40, 2, 'N')]);
    assert_eq!(listing(&s, 15), vec![]);
    assert_eq!(s.sucessor(0, 14), Some(1));
    assert_eq!(s.sucessor(20, 14), Some(22));
    assert_eq!(s.sucessor(39, 14), Some(40));
    assert_eq!(s.sucessor(40, 14), None);
}

#[test]
fn mixed_inserts_and_removals() {
    let mut s = PersistentStructure::new();
    s.insert(50);
    s.insert(30);
    s.insert(70);
    s.insert(20);
    s.insert(40);
    s.insert(60);
    s.insert(80);
    s.insert(10);
    s.insert(25);
    s.insert(35);
    s.insert(45);
    let _ = s.remove(30);
    let _ = s.remove(50);
    let _ = s.remove(10);
    let _ = s.remove(70);
    s.insert(33);
    let _ = s.remove(80);
    assert_eq!(listing(&s, 0), vec![]);
    assert_eq!(listing(&s, 1), vec![(50, 0, 'N')]);
    assert_eq!(listing(&s, 2), vec![(30, 1, 'R'), (50, 0, 'N')]);
    assert_eq!(listing(&s, 3), vec![(30, 1, 'R'), (50, 0, 'N'), (70, 1, 'R')]);
    assert_eq!(listing(&s, 4), vec![(20, 2, 'R'), (30, 1, 'N'), (50, 0, 'N'), (70, 1, 'N')]);
    assert_eq!(listing(&s, 5), vec![(20, 2, 'R'), (30, 1, 'N'), (40, 2, 'R'), (50, 0, 'N'), (70, 1, 'N')]);
    assert_eq!(listing(&s, 6), vec![(20, 2, 'R'), (30, 1, 'N'), (40, 2, 'R'), (50, 0, 'N'), (60, 2, 'R'), (70, 1, 'N')]);
    assert_eq!(listing(&s, 7), vec![(20, 2, 'R'), (30, 1, 'N'), (40, 2, 'R'), (50, 0, 'N'), (60, 2, 'R'), (70, 1, 'N'), (80, 2, 'R')]);
    assert_eq!(listing(&s, 8), vec![(10, 3, 'R'), (20, 2, 'N'), (30, 1, 'R'), (40, 2, 'N'), (50, 0, 'N'), (60, 2, 'R'), (70, 1, 'N'), (80, 2, 'R')]);
    assert_eq!(listing(&s, 9), vec![(10, 3, 'R'), (20, 2, 'N'), (25, 3, 'R'), (30, 1, 'R'), (40, 2, 'N'), (50, 0, 'N'), (60, 2, 'R'), (70, 1, 'N'), (80, 2, 'R')]);
    assert_eq!(listing(&s, 10), vec![(10, 3, 'R'), (20, 2, 'N'), (25, 3, 'R'), (30, 1, 'R'), (35, 3, 'R'), (40, 2, 'N'), (50, 0, 'N'), (60, 2, 'R'), (70, 1, 'N'), (80, 2, 'R')]);
    assert_eq!(listing(&s, 11), vec![(10, 3, 'R'), (20, 2, 'N'), (25, 3, 'R'), (30, 1, 'R'), (35, 3, 'R'), (40, 2, 'N'), (45, 3, 'R'), (50, 0, 'N'), (60, 2, 'R'), (70, 1, 'N'), (80, 2, 'R')]);
    assert_eq!(listing(&s, 12), vec![(10, 3, 'R'), (20, 2, 'N'), (25, 3, 'R'), (35, 1, 'R'), (40, 2, 'N'), (45, 3, 'R'), (50, 0, 'N'), (60, 2, 'R'), (70, 1, 'N'), (80, 2, 'R')]);
    assert_eq!(listing(&s, 13), vec![(10, 3, 'R'), (20, 2, 'N'), (25, 3, 'R'), (35, 1, 'R'), (40, 2, 'N'), (45, 3, 'R'), (60, 0, 'N'), (70, 1, 'N'), (80, 2, 'R')]);
    assert_eq!(listing(&s, 14), vec![(20, 2, 'N'), (25, 3, 'R'), (35, 1, 'R'), (40, 2, 'N'), (45, 3, 'R'), (60, 0, 'N'), (70, 1, 'N'), (80, 2, 'R')]);
    assert_eq!(listing(&s, 15), vec![(20, 2, 'N'), (25, 3, 'R'), (35, 1, 'R'), (40, 2, 'N'), (45, 3, 'R'), (60, 0, 'N'), (80, 1, 'N')]);
    assert_eq!(listing(&s, 16), vec![(20, 3, 'R'), (25, 2, 'N'), (33, 3, 'R'), (35, 1, 'R'), (40, 2, 'N'), (45, 3, 'R'), (60, 0, 'N'), (80, 1, 'N')]);
    assert_eq!(listing(&s, 17), vec![(20, 2, 'R'), (25, 1, 'N'), (33, 2, 'R'), (35, 0, 'N'), (40, 2, 'N'), (45, 1, 'R'), (60, 2, 'N')]);
    assert_eq!(listing(&s, 18), vec![]);
    assert_eq!(s.sucessor(0, 1), Some(50));
    assert_eq!(s.sucessor(45, 1), Some(50));
    assert_eq!(s.sucessor(0, 17), Some(20));
    assert_eq!(s.sucessor(15, 17), Some(20));
    assert_eq!(s.sucessor(25, 17), Some(33));
    assert_eq!(s.sucessor(45, 17), Some(60));
    assert_eq!(s.sucessor(100, 17), None);
    assert_eq!(s.sucessor(25, 11), Some(30));
}

#[test]
fn removing_a_node_with_two_children_lists_the_successor_value() {
    let mut s = PersistentStructure::new();
    s.insert(2);
    s.insert(1);
    s.insert(3);
    let _ = s.remove(2);
    assert_eq!(listing(&s, 3), vec![(1, 1, 'R'), (2, 0, 'N'), (3, 1, 'R')]);
    assert_eq!(listing(&s, 4), vec![(1, 1, 'R'), (3, 0, 'N')]);
    assert_eq!(s.sucessor(1, 4), Some(3));
    assert_eq!(s.sucessor(2, 4), Some(3));
    assert_eq!(s.sucessor(1, 3), Some(2));
}

#[test]
fn equal_values_go_left() {
    let mut s = PersistentStructure::new();
    s.insert(5);
    s.insert(5);
    s.insert(5);
    s.insert(5);
    assert_eq!(listing(&s, 1), vec![(5, 0, 'N')]);
    assert_eq!(listing(&s, 2), vec![(5, 1, 'R'), (5, 0, 'N')]);
    assert_eq!(listing(&s, 3), vec![(5, 1, 'R'), (5, 0, 'N'), (5, 1, 'R')]);
    assert_eq!(listing(&s, 4), vec![(5, 2, 'R'), (5, 1, 'N'), (5, 0, 'N'), (5, 1, 'N')]);
    assert_eq!(s.sucessor(4, 4), Some(5));
    assert_eq!(s.sucessor(5, 4), None);
}

#[test]
fn negative_and_extreme_values() {
    let mut s = PersistentStructure::new();
    s.insert(-2147483648);
    s.insert(2147483647);
    s.insert(0);
    s.insert(-1);
    let _ = s.remove(0);
    assert_eq!(listing(&s, 1), vec![(-2147483648, 0, 'N')]);
    assert_eq!(listing(&s, 2), vec![(-2147483648, 0, 'N'), (2147483647, 1, 'R')]);
    assert_eq!(listing(&s, 3), vec![(-2147483648, 1, 'R'), (0, 0, 'N'), (2147483647, 1, 'R')]);
    assert_eq!(listing(&s, 4), vec![(-2147483648, 1, 'N'), (-1, 2, 'R'), (0, 0, 'N'), (2147483647, 1, 'N')]);
    assert_eq!(listing(&s, 5), vec![(-2147483648, 1, 'N'), (-1, 0, 'N'), (2147483647, 1, 'N')]);
    assert_eq!(s.sucessor(-2147483648, 5), Some(-1));
    assert_eq!(s.sucessor(0, 5), Some(2147483647));
    assert_eq!(s.sucessor(2147483647, 5), None);
    assert_eq!(s.sucessor(-1, 4), Some(0));
}

#[test]
fn random_sequence_1() {
    let mut s = PersistentStructure::new();
    s.insert(20);
    s.insert(18);
    s.insert(25);
    s.insert(5);
    s.insert(20);
    let _ = s.remove(25);
    s.insert(19);
    s.insert(6);
    let _ = s.remove(20);
    let _ = s.remove(19);
    s.insert(11);
    s.insert(29);
    let _ = s.remove(11);
    s.insert(9);
    s.insert(-29);
    s.insert(-24);
    s.insert(-4);
    s.insert(-24);
    s.insert(-14);
    s.insert(28);
    let _ = s.remove(-4);
    s.insert(-25);
    let _ = s.remove(20);
    s.insert(-21);
    s.insert(8);
    let _ = s.remove(-24);
    s.insert(19);
    let _ = s.remove(19);
    s.insert(4);
    s.insert(26);
    let _ = s.remove(18);
    let _ = s.remove(-14);
    let _ = s.remove(6);
    s.insert(3);
    s.insert(-28);
    s.insert(-16);
    s.insert(-7);
    s.insert(16);
    s.insert(23);
    s.insert(11);
    let _ = s.remove(-29);
    s.insert(27);
    s.insert(-14);
    let _ = s.remove(-24);
    s.insert(-29);
    let _ = s.remove(28);
    s.insert(23);
    s.insert(27);
    s.insert(-26);
    s.insert(3);
    let _ = s.remove(5);
    s.insert(-14);
    s.insert(21);
    let _ = s.remove(23);
    let _ = s.remove(27);
    let _ = s.remove(26);
    s.insert(28);
    let _ = s.remove(-26);
    let _ = s.remove(3);
    s.insert(-14);
    s.insert(25);
    let _ = s.remove(-21);
    let _ = s.remove(8);
    s.insert(-25);
    s.insert(-15);
    s.insert(-26);
    let _ = s.remove(-14);
    s.insert(29);
    s.insert(-23);
    s.insert(-17);
    assert_eq!(listing(&s, 1), vec![(20, 0, 'N')]);
    assert_eq!(listing(&s, 35), vec![(-29, 3, 'N'), (-28, 4, 'R'), (-25, 2, 'R'), (-24, 3, 'N'), (-21, 1, 'N'), (3, 3, 'R'), (4, 2, 'N'), (5, 3, 'R'), (8, 0, 'N'), (9, 2, 'N'), (26, 1, 'N'), (28, 2, 'N'), (29, 3, 'R')]);
    assert_eq!(listing(&s, 69), vec![(-29, 3, 'N'), (-28, 2, 'N'), (-26, 4, 'N'), (-25, 3, 'R'), (-25, 4, 'N'), (-23, 5, 'R'), (-16, 1, 'R'), (-15, 4, 'N'), (-14, 3, 'R'), (-14, 4, 'N'), (-7, 2, 'N'), (3, 4, 'R'), (4, 3, 'N'), (9, 0, 'N'), (11, 3, 'N'), (16, 2, 'R'), (21, 4, 'R'), (23, 3, 'N'), (25, 4, 'R'), (27, 1, 'N'), (28, 3, 'R'), (29, 2, 'N'), (29, 3, 'R')]);
    assert_eq!(listing(&s, 70), vec![(-29, 3, 'N'), (-28, 2, 'N'), (-26, 4, 'N'), (-25, 3, 'R'), (-25, 5, 'R'), (-23, 4, 'N'), (-17, 5, 'R'), (-16, 1, 'R'), (-15, 4, 'N'), (-14, 3, 'R'), (-14, 4, 'N'), (-7, 2, 'N'), (3, 4, 'R'), (4, 3, 'N'), (9, 0, 'N'), (11, 3, 'N'), (16, 2, 'R'), (21, 4, 'R'), (23, 3, 'N'), (25, 4, 'R'), (27, 1, 'N'), (28, 3, 'R'), (29, 2, 'N'), (29, 3, 'R')]);
    assert_eq!(listing(&s, 71), vec![]);
    assert_eq!(s.sucessor(0, 70), Some(3));
    assert_eq!(s.sucessor(-10, 70), Some(-7));
    assert_eq!(s.sucessor(10, 35), Some(26));
    assert_eq!(s.sucessor(29, 70), None);
}

#[test]
fn random_sequence_2() {
    let mut s = PersistentStructure::new();
    s.insert(3);
    s.insert(27);
    let _ = s.remove(3);
    let _ = s.remove(27);
    s.insert(10);
    s.insert(-25);
    s.insert(-3);
    s.insert(-15);
    let _ = s.remove(10);
    s.insert(6);
    s.insert(-22);
    s.insert(-20);
    let _ = s.remove(-20);
    s.insert(11);
    let _ = s.remove(-22);
    s.insert(11);
    s.insert(-2);
    s.insert(14);
    s.insert(-24);
    s.insert(-25);
    s.insert(-5);
    let _ = s.remove(-25);
    s.insert(8);
    s.insert(1);
    let _ = s.remove(-25);
    let _ = s.remove(-3);
    s.insert(-25);
    s.insert(-26);
    s.insert(1);
    let _ = s.remove(-15);
    let _ = s.remove(11);
    s.insert(-23);
    s.insert(30);
    s.insert(-25);
    s.insert(-30);
    let _ = s.remove(6);
    let _ = s.remove(8);
    s.insert(0);
    s.insert(-12);
    s.insert(-5);
    s.insert(24);
    let _ = s.remove(0);
    let _ = s.remove(14);
    let _ = s.remove(-30);
    let _ = s.remove(11);
    s.insert(-9);
    s.insert(16);
    s.insert(-28);
    let _ = s.remove(-9);
    let _ = s.remove(-5);
    s.insert(-24);
    s.insert(25);
    s.insert(7);
    s.insert(-25);
    let _ = s.remove(16);
    s.insert(-12);
    s.insert(-14);
    s.insert(-11);
    s.insert(-1);
    s.insert(12);
    let _ = s.remove(-25);
    s.insert(29);
    let _ = s.remove(-12);
    let _ = s.remove(29);
    s.insert(22);
    s.insert(-6);
    s.insert(-2);
    s.insert(12);
    let _ = s.remove(-28);
    let _ = s.remove(1);
    assert_eq!(listing(&s, 1), vec![(3, 0, 'N')]);
    assert_eq!(listing(&s, 34), vec![(-30, 4, 'R'), (-26, 3, 'N'), (-25, 4, 'R'), (-25, 2, 'R'), (-24, 3, 'N'), (-23, 4, 'R'), (-5, 1, 'N'), (-2, 3, 'N'), (1, 2, 'R'), (1, 3, 'N'), (6, 0, 'N'), (8, 3, 'R'), (11, 2, 'N'), (14, 1, 'N'), (27, 2, 'N'), (30, 3, 'R')]);
    assert_eq!(listing(&s, 68), vec![(-26, 3, 'N'), (-25, 2, 'N'), (-25, 3, 'N'), (-24, 1, 'R'), (-24, 3, 'N'), (-23, 2, 'N'), (-14, 5, 'R'), (-12, 4, 'N'), (-11, 3, 'R'), (-6, 5, 'R'), (-5, 4, 'N'), (-2, 5, 'R'), (-2, 0, 'N'), (-1, 4, 'R'), (1, 3, 'N'), (1, 2, 'N'), (7, 4, 'N'), (12, 5, 'R'), (12, 3, 'R'), (22, 4, 'N'), (24, 1, 'R'), (25, 3, 'N'), (27, 2, 'N'), (30, 3, 'N')]);
    assert_eq!(listing(&s, 69), vec![(-26, 3, 'N'), (-25, 2, 'N'), (-25, 3, 'N'), (-24, 1, 'R'), (-24, 3, 'N'), (-23, 2, 'N'), (-14, 5, 'R'), (-12, 4, 'N'), (-11, 3, 'R'), (-6, 5, 'R'), (-5, 4, 'N'), (-2, 5, 'R'), (-2, 0, 'N'), (-1, 4, 'R'), (1, 3, 'N'), (7, 2, 'N'), (12, 4, 'N'), (12, 3, 'R'), (22, 4, 'N'), (24, 1, 'R'), (25, 3, 'N'), (27, 2, 'N'), (30, 3, 'N')]);
    assert_eq!(listing(&s, 70), vec![]);
    assert_eq!(s.sucessor(0, 69), Some(1));
    assert_eq!(s.sucessor(-10, 69), Some(-6));
    assert_eq!(s.sucessor(10, 34), Some(11));
    assert_eq!(s.sucessor(29, 69), Some(30));
}

#[test]
fn random_sequence_3() {
    let mut s = PersistentStructure::new();
    s.insert(1);
    s.insert(-16);
    s.insert(-2);
    s.insert(-5);
    let _ = s.remove(-2);
    let _ = s.remove(-5);
    s.insert(-25);
    s.insert(25);
    let _ = s.remove(1);
    s.insert(13);
    s.insert(-27);
    let _ = s.remove(-27);
    s.insert(-22);
    s.insert(-28);
    s.insert(14);
    s.insert(-6);
    let _ = s.remove(14);
    s.insert(24);
    s.insert(-6);
    s.insert(-18);
    let _ = s.remove(-22);
    s.insert(19);
    let _ = s.remove(25);
    s.insert(7);
    s.insert(25);
    let _ = s.remove(-16);
    s.insert(-18);
    s.insert(-2);
    s.insert(-21);
    s.insert(24);
    s.insert(-24);
    let _ = s.remove(-2);
    s.insert(2);
    let _ = s.remove(-6);
    let _ = s.remove(19);
    s.insert(10);
    s.insert(-10);
    s.insert(26);
    s.insert(6);
    s.insert(5);
    let _ = s.remove(6);
    s.insert(-27);
    let _ = s.remove(-18);
    let _ = s.remove(-27);
    s.insert(15);
    s.insert(15);
    s.insert(-17);
    s.insert(6);
    s.insert(13);
    s.insert(25);
    s.insert(-19);
    let _ = s.remove(-17);
    let _ = s.remove(15);
    let _ = s.remove(13);
    s.insert(1);
    s.insert(-24);
    s.insert(18);
    s.insert(27);
    s.insert(-19);
    let _ = s.remove(25);
    let _ = s.remove(13);
    let _ = s.remove(10);
    let _ = s.remove(-28);
    s.insert(-5);
    let _ = s.remove(26);
    let _ = s.remove(6);
    let _ = s.remove(25);
    let _ = s.remove(27);
    s.insert(0);
    let _ = s.remove(24);
    assert_eq!(listing(&s, 1), vec![(1, 0, 'N')]);
    assert_eq!(listing(&s, 35), vec![(-28, 2, 'N'), (-25, 1, 'N'), (-24, 4, 'R'), (-21, 3, 'N'), (-18, 2, 'R'), (-18, 3, 'N'), (-6, 0, 'N'), (2, 2, 'N'), (7, 3, 'R'), (13, 1, 'N'), (24, 3, 'N'), (24, 2, 'R'), (25, 3, 'N')]);
    assert_eq!(listing(&s, 69), vec![(-25, 3, 'N'), (-24, 2, 'R'), (-24, 3, 'N'), (-21, 1, 'N'), (-19, 4, 'R'), (-19, 3, 'N'), (-18, 2, 'R'), (-10, 3, 'N'), (-6, 0, 'N'), (-5, 4, 'N'), (0, 5, 'R'), (1, 3, 'R'), (2, 4, 'N'), (5, 2, 'N'), (7, 3, 'N'), (15, 1, 'R'), (18, 3, 'N'), (24, 2, 'N'), (24, 3, 'N')]);
    assert_eq!(listing(&s, 70), vec![(-25, 3, 'N'), (-24, 2, 'R'), (-24, 3, 'N'), (-21, 1, 'N'), (-19, 4, 'R'), (-19, 3, 'N'), (-18, 2, 'R'), (-10, 3, 'N'), (-6, 0, 'N'), (-5, 3, 'N'), (0, 4, 'R'), (1, 2, 'N'), (2, 3, 'N'), (5, 1, 'R'), (7, 3, 'N'), (15, 2, 'N'), (18, 4, 'R'), (24, 3, 'N')]);
    assert_eq!(listing(&s, 71), vec![]);
    assert_eq!(s.sucessor(0, 70), Some(1));
    assert_eq!(s.sucessor(-10, 70), Some(-6));
    assert_eq!(s.sucessor(10, 35), Some(13));
    assert_eq!(s.sucessor(29, 70), None);
}

#[test]
fn random_sequence_4() {
    let mut s = PersistentStructure::new();
    s.insert(-4);
    let _ = s.remove(-4);
    s.insert(19);
    s.insert(24);
    s.insert(-9);
    s.insert(14);
    s.insert(24);
    s.insert(24);
    s.insert(-26);
    s.insert(16);
    let _ = s.remove(19);
    let _ = s.remove(24);
    s.insert(-10);
    s.insert(-29);
    let _ = s.remove(14);
    s.insert(16);
    let _ = s.remove(16);
    s.insert(-15);
    s.insert(24);
    s.insert(-6);
    let _ = s.remove(-15);
    let _ = s.remove(24);
    s.insert(21);
    s.insert(21);
    s.insert(-2);
    let _ = s.remove(-6);
    let _ = s.remove(21);
    let _ = s.remove(-26);
    let _ = s.remove(-10);
    s.insert(18);
    s.insert(5);
    let _ = s.remove(21);
    let _ = s.remove(5);
    s.insert(26);
    s.insert(1);
    s.insert(-16);
    s.insert(1);
    s.insert(-3);
    s.insert(-2);
    s.insert(-15);
    let _ = s.remove(-3);
    s.insert(-21);
    s.insert(18);
    s.insert(-27);
    let _ = s.remove(1);
    let _ = s.remove(24);
    s.insert(-6);
    s.insert(23);
    s.insert(24);
    let _ = s.remove(-6);
    let _ = s.remove(-9);
    let _ = s.remove(26);
    s.insert(-13);
    s.insert(-29);
    let _ = s.remove(18);
    s.insert(13);
    s.insert(20);
    let _ = s.remove(-29);
    s.insert(-15);
    s.insert(13);
    s.insert(18);
    s.insert(-3);
    s.insert(-27);
    s.insert(-28);
    let _ = s.remove(-2);
    s.insert(2);
    let _ = s.remove(18);
    s.insert(8);
    s.insert(25);
    s.insert(-14);
    assert_eq!(listing(&s, 1), vec![(-4, 0, 'N')]);
    assert_eq!(listing(&s, 34), vec![(-29, 3, 'R'), (-9, 2, 'N'), (-4, 1, 'N'), (-2, 2, 'N'), (1, 3, 'R'), (16, 0, 'N'), (18, 2, 'N'), (24, 1, 'N'), (24, 2, 'N'), (26, 3, 'R')]);
    assert_eq!(listing(&s, 68), vec![(-29, 5, 'R'), (-28, 4, 'N'), (-27, 5, 'R'), (-27, 3, 'R'), (-21, 4, 'N'), (-16, 2, 'N'), (-15, 4, 'R'), (-15, 3, 'N'), (-13, 4, 'R'), (-4, 1, 'R'), (-3, 4, 'R'), (-2, 3, 'N'), (1, 2, 'N'), (2, 4, 'N'), (8, 5, 'R'), (13, 3, 'R'), (13, 4, 'N'), (16, 0, 'N'), (18, 3, 'R'), (20, 2, 'N'), (23, 1, 'N'), (24, 3, 'R'), (24, 2, 'N'), (25, 3, 'R')]);
    assert_eq!(listing(&s, 69), vec![(-29, 5, 'R'), (-28, 4, 'N'), (-27, 5, 'R'), (-27, 3, 'R'), (-21, 4, 'N'), (-16, 2, 'N'), (-15, 4, 'N'), (-15, 3, 'R'), (-14, 5, 'R'), (-13, 4, 'N'), (-4, 1, 'R'), (-3, 4, 'R'), (-2, 3, 'N'), (1, 2, 'N'), (2, 4, 'N'), (8, 5, 'R'), (13, 3, 'R'), (13, 4, 'N'), (16, 0, 'N'), (18, 3, 'R'), (20, 2, 'N'), (23, 1, 'N'), (24, 3, 'R'), (24, 2, 'N'), (25, 3, 'R')]);
    assert_eq!(listing(&s, 70), vec![]);
    assert_eq!(s.sucessor(0, 69), Some(1));
    assert_eq!(s.sucessor(-10, 69), Some(-4));
    assert_eq!(s.sucessor(10, 34), Some(16));
    assert_eq!(s.sucessor(29, 69), None);
}

#[test]
fn random_sequence_5() {
    let mut s = PersistentStructure::new();
    s.insert(0);
    s.insert(-5);
    s.insert(26);
    s.insert(10);
    s.insert(-8);
    s.insert(-19);
    s.insert(6);
    s.insert(-7);
    s.insert(21);
    let _ = s.remove(0);
    let _ = s.remove(-5);
    let _ = s.remove(26);
    let _ = s.remove(10);
    let _ = s.remove(-8);
    s.insert(-17);
    s.insert(8);
    s.insert(-8);
    s.insert(27);
    s.insert(4);
    let _ = s.remove(-17);
    s.insert(-13);
    s.insert(0);
    s.insert(-9);
    s.insert(-12);
    s.insert(25);
    s.insert(-29);
    s.insert(-5);
    let _ = s.remove(25);
    s.insert(6);
    let _ = s.remove(6);
    s.insert(13);
    s.insert(10);
    s.insert(-28);
    s.insert(-1);
    let _ = s.remove(4);
    let _ = s.remove(21);
    let _ = s.remove(-28);
    s.insert(-18);
    s.insert(-20);
    let _ = s.remove(-29);
    s.insert(10);
    s.insert(0);
    s.insert(4);
    let _ = s.remove(-1);
    s.insert(-26);
    s.insert(-8);
    let _ = s.remove(0);
    let _ = s.remove(-12);
    s.insert(30);
    s.insert(-18);
    s.insert(-7);
    s.insert(9);
    s.insert(26);
    s.insert(-14);
    let _ = s.remove(10);
    let _ = s.remove(-7);
    let _ = s.remove(-14);
    s.insert(8);
    let _ = s.remove(-26);
    s.insert(10);
    s.insert(-17);
    s.insert(-3);
    s.insert(19);
    let _ = s.remove(10);
    s.insert(27);
    s.insert(22);
    s.insert(16);
    s.insert(21);
    s.insert(-26);
    s.insert(16);
    assert_eq!(listing(&s, 1), vec![(0, 0, 'N')]);
    assert_eq!(listing(&s, 35), vec![(-29, 3, 'R'), (-28, 2, 'N'), (-19, 3, 'R'), (-13, 1, 'N'), (-12, 3, 'R'), (-9, 2, 'N'), (-8, 0, 'N'), (-7, 4, 'R'), (-5, 3, 'N'), (-1, 4, 'R'), (0, 2, 'R'), (6, 3, 'N'), (8, 1, 'N'), (10, 4, 'R'), (13, 3, 'N'), (21, 2, 'R'), (27, 3, 'N')]);
    assert_eq!(listing(&s, 69), vec![(-26, 5, 'R'), (-20, 4, 'N'), (-19, 3, 'R'), (-18, 5, 'R'), (-18, 4, 'N'), (-17, 5, 'R'), (-13, 2, 'N'), (-9, 3, 'N'), (-8, 4, 'R'), (-8, 1, 'R'), (-7, 4, 'N'), (-5, 3, 'R'), (-3, 5, 'R'), (0, 4, 'N'), (4, 2, 'N'), (6, 3, 'N'), (8, 4, 'R'), (8, 0, 'N'), (9, 4, 'R'), (10, 3, 'N'), (13, 2, 'N'), (16, 4, 'N'), (19, 3, 'R'), (21, 5, 'R'), (22, 4, 'N'), (26, 1, 'R'), (27, 3, 'N'), (27, 2, 'N'), (30, 3, 'N')]);
    assert_eq!(listing(&s, 70), vec![(-26, 5, 'R'), (-20, 4, 'N'), (-19, 3, 'R'), (-18, 5, 'R'), (-18, 4, 'N'), (-17, 5, 'R'), (-13, 2, 'N'), (-9, 3, 'N'), (-8, 4, 'R'), (-8, 1, 'R'), (-7, 4, 'N'), (-5, 3, 'R'), (-3, 5, 'R'), (0, 4, 'N'), (4, 2, 'N'), (6, 3, 'N'), (8, 4, 'R'), (8, 0, 'N'), (9, 4, 'R'), (10, 3, 'N'), (13, 2, 'N'), (16, 5, 'R'), (16, 4, 'N'), (19, 3, 'R'), (21, 5, 'R'), (22, 4, 'N'), (26, 1, 'R'), (27, 3, 'N'), (27, 2, 'N'), (30, 3, 'N')]);
    assert_eq!(listing(&s, 71), vec![]);
    assert_eq!(s.sucessor(0, 70), Some(4));
    assert_eq!(s.sucessor(-10, 70), Some(-9));
    assert_eq!(s.sucessor(10, 35), Some(13));
    assert_eq!(s.sucessor(29, 70), Some(30));
}
